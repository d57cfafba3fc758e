//! Placement of resampled sample data in the GPU sample store: which samples
//! still have to be uploaded, where each one goes, and how a byte range is
//! split across the fixed-size chunks of the store.

use std::collections::HashMap;
use vstd::prelude::*;

verus! {

/// One write into a chunk of the sample store: `len` bytes of the data,
/// starting at byte `start` of the data, go to byte `offset` of chunk
/// `chunk`.
#[derive(Debug, Clone, Copy, PartialEq, Eq, Structural)]
pub struct ChunkWrite {
    pub chunk: usize,
    pub offset: u64,
    pub start: usize,
    pub len: usize,
}

/// How many bytes of the data the writes cover.
pub open spec fn covered(w: Seq<ChunkWrite>) -> int {
    if w.len() == 0 {
        0
    } else {
        w.last().start + w.last().len
    }
}

/// Write `i` of `w` is the one that places data byte `w[i].start`: it goes
/// to the chunk and chunk offset of that byte's position in the store and
/// runs to the end of the chunk or of the data, whichever comes first.
pub open spec fn write_placed(w: Seq<ChunkWrite>, i: int, byte_offset: u64, len: usize, chunk_bytes: u64) -> bool {
    let cb = chunk_bytes as int;
    let pos = byte_offset + w[i].start;
    let room = cb - pos % cb;
    &&& w[i].start == (if i == 0 {
        0
    } else {
        w[i - 1].start + w[i - 1].len
    })
    &&& w[i].start < len
    &&& w[i].chunk == pos / cb
    &&& w[i].offset == pos % cb
    &&& w[i].len == (if room < len - w[i].start {
        room
    } else {
        len - w[i].start
    })
}

/// Splits `len` bytes that go to byte `byte_offset` of a store made of
/// `chunks` chunks of `chunk_bytes` bytes each into one write per chunk
/// touched. The second result is `true` when the data runs past the last
/// chunk: the writes then cover the part that fits.
pub fn plan_chunk_writes(byte_offset: u64, len: usize, chunk_bytes: u64, chunks: usize) -> (r: (
    Vec<ChunkWrite>,
    bool,
))
    requires
        chunk_bytes > 0,
        byte_offset + len <= u64::MAX,
    ensures
        forall|i: int|
            0 <= i < r.0@.len() ==> #[trigger] write_placed(r.0@, i, byte_offset, len, chunk_bytes)
                && r.0@[i].chunk < chunks,
        covered(r.0@) <= len,
        r.1 == (covered(r.0@) < len),
        r.1 ==> (byte_offset + covered(r.0@)) / (chunk_bytes as int) >= chunks,
{
    let mut out: Vec<ChunkWrite> = Vec::new();
    let mut done: usize = 0;
    while done < len
        invariant
            chunk_bytes > 0,
            byte_offset + len <= u64::MAX,
            done <= len,
            done == covered(out@),
            forall|i: int|
                0 <= i < out@.len() ==> #[trigger] write_placed(out@, i, byte_offset, len, chunk_bytes)
                    && out@[i].chunk < chunks,
        ensures
            done < len ==> (byte_offset + done) / (chunk_bytes as int) >= chunks,
        decreases len - done,
    {
        let pos: u64 = byte_offset + done as u64;
        let chunk: u64 = pos / chunk_bytes;
        if chunk >= chunks as u64 {
            break;
        }
        let in_chunk: u64 = pos % chunk_bytes;
        let room: u64 = chunk_bytes - in_chunk;
        let rest: usize = len - done;
        let take: usize = if room < rest as u64 {
            room as usize
        } else {
            rest
        };
        let w = ChunkWrite { chunk: chunk as usize, offset: in_chunk, start: done, len: take };
        let ghost before = out@;
        out.push(w);
        proof {
            assert(out@.len() - 1 == before.len());
            assert forall|i: int| 0 <= i < out@.len() implies #[trigger] write_placed(
                out@,
                i,
                byte_offset,
                len,
                chunk_bytes,
            ) && out@[i].chunk < chunks by {
                if i < before.len() {
                    assert(out@[i] == before[i]);
                    if i > 0 {
                        assert(out@[i - 1] == before[i - 1]);
                    }
                    assert(write_placed(before, i, byte_offset, len, chunk_bytes));
                } else {
                    assert(out@[i] == w);
                    if i > 0 {
                        assert(out@[i - 1] == before.last());
                    }
                }
            }
        }
        done = done + take;
    }
    let overflow = done < len;
    (out, overflow)
}

/// `s` is ascending with no value twice.
pub open spec fn strictly_ascending(s: Seq<usize>) -> bool {
    forall|i: int, j: int| 0 <= i < j < s.len() ==> s[i] < s[j]
}

/// The sample store's table of contents: where each uploaded sample's data
/// lies (offset and length, in samples), and where the next one goes.
pub struct SampleArena {
    offsets: HashMap<usize, (u32, u32)>,
    next: u32,
}

impl View for SampleArena {
    type V = (Map<usize, (u32, u32)>, u32);

    closed spec fn view(&self) -> (Map<usize, (u32, u32)>, u32) {
        (self.offsets@, self.next)
    }
}

/// Every placed sample ends by `next`, and no two placed samples overlap.
pub open spec fn arena_wf(slots: Map<usize, (u32, u32)>, next: u32) -> bool {
    &&& forall|id: usize| #[trigger] slots.contains_key(id) ==> slots[id].0 + slots[id].1 <= next
    &&& forall|a: usize, b: usize|
        #[trigger] slots.contains_key(a) && #[trigger] slots.contains_key(b) && a != b ==> slots[a].0
            + slots[a].1 <= slots[b].0 || slots[b].0 + slots[b].1 <= slots[a].0
}

impl SampleArena {
    /// An empty store.
    pub fn new() -> (a: SampleArena)
        ensures
            a@.0 == Map::<usize, (u32, u32)>::empty(),
            a@.1 == 0,
            a.wf(),
    {
        SampleArena { offsets: HashMap::new(), next: 0 }
    }

    /// No two placed samples overlap, and all lie before the next offset.
    pub open spec fn wf(&self) -> bool {
        arena_wf(self@.0, self@.1)
    }

    /// Where the next placed sample will start.
    pub fn next_offset(&self) -> (r: u32)
        ensures
            r == self@.1,
    {
        self.next
    }

    /// The placement of `id`: its offset and length, if it was uploaded.
    pub fn lookup(&self, id: usize) -> (r: Option<(u32, u32)>)
        ensures
            r == (if self@.0.contains_key(id) {
                Some(self@.0[id])
            } else {
                None
            }),
    {
        broadcast use vstd::std_specs::hash::group_hash_axioms;

        match self.offsets.get(&id) {
            Some(p) => Some(*p),
            None => None,
        }
    }

    /// The samples among `ids` that have no place yet, ascending, each once.
    pub fn missing(&self, ids: &Vec<usize>) -> (r: Vec<usize>)
        ensures
            strictly_ascending(r@),
            forall|x: usize| r@.contains(x) <==> (ids@.contains(x) && !self@.0.contains_key(x)),
    {
        let mut out: Vec<usize> = Vec::new();
        let mut k: usize = 0;
        while k < ids.len()
            invariant
                k <= ids@.len(),
                strictly_ascending(out@),
                forall|x: usize|
                    out@.contains(x) <==> (ids@.subrange(0, k as int).contains(x) && !self@.0.contains_key(x)),
            decreases ids.len() - k,
        {
            let x = ids[k];
            if self.lookup(x).is_none() {
                insert_sorted(&mut out, x);
            }
            proof {
                let a = ids@.subrange(0, k as int);
                let b = ids@.subrange(0, k + 1);
                assert(b == a.push(x));
                assert forall|y: usize| b.contains(y) <==> (a.contains(y) || y == x) by {
                    if b.contains(y) && y != x {
                        let j = choose|j: int| 0 <= j < b.len() && #[trigger] b[j] == y;
                        assert(a[j] == y);
                    }
                    if a.contains(y) {
                        let j = choose|j: int| 0 <= j < a.len() && #[trigger] a[j] == y;
                        assert(b[j] == y);
                    }
                    assert(b[k as int] == x);
                }
            }
            k = k + 1;
        }
        proof {
            assert(ids@.subrange(0, ids@.len() as int) == ids@);
        }
        out
    }

    /// Places `id` with `len` samples at the next offset and returns that
    /// offset.
    pub fn place(&mut self, id: usize, len: u32) -> (offset: u32)
        requires
            old(self).wf(),
            !old(self)@.0.contains_key(id),
            old(self)@.1 + len <= u32::MAX,
        ensures
            offset == old(self)@.1,
            final(self)@.0 == old(self)@.0.insert(id, (offset, len)),
            final(self)@.1 == old(self)@.1 + len,
            final(self).wf(),
    {
        broadcast use vstd::std_specs::hash::group_hash_axioms;

        let offset = self.next;
        self.offsets.insert(id, (offset, len));
        self.next = offset + len;
        offset
    }
}

/// Inserts `x` into the strictly ascending `v` unless it is already there.
fn insert_sorted(v: &mut Vec<usize>, x: usize)
    requires
        strictly_ascending(old(v)@),
    ensures
        strictly_ascending(final(v)@),
        forall|y: usize| final(v)@.contains(y) <==> (old(v)@.contains(y) || y == x),
{
    let mut p: usize = 0;
    while p < v.len() && v[p] < x
        invariant
            p <= v@.len(),
            v@ == old(v)@,
            strictly_ascending(v@),
            forall|i: int| 0 <= i < p ==> v@[i] < x,
        decreases v.len() - p,
    {
        p = p + 1;
    }
    if p < v.len() && v[p] == x {
        return;
    }
    let ghost before = v@;
    v.insert(p, x);
    proof {
        let s = v@;
        assert(s == before.subrange(0, p as int).push(x) + before.subrange(p as int, before.len() as int));
        assert forall|i: int, j: int| 0 <= i < j < s.len() implies s[i] < s[j] by {
            if j < p {
                assert(s[i] == before[i] && s[j] == before[j]);
            } else if j == p {
                assert(s[i] == before[i]);
            } else if i < p {
                assert(s[i] == before[i] && s[j] == before[j - 1]);
            } else if i == p {
                assert(s[j] == before[j - 1]);
                assert(before[p as int] >= x);
            } else {
                assert(s[i] == before[i - 1] && s[j] == before[j - 1]);
            }
        }
        assert forall|y: usize| s.contains(y) <==> (before.contains(y) || y == x) by {
            if s.contains(y) {
                let i = choose|i: int| 0 <= i < s.len() && s[i] == y;
                if i < p {
                    assert(before[i] == y);
                } else if i > p {
                    assert(before[i - 1] == y);
                }
            }
            if before.contains(y) {
                let i = choose|i: int| 0 <= i < before.len() && before[i] == y;
                if i < p {
                    assert(s[i] == y);
                } else {
                    assert(s[i + 1] == y);
                }
            }
            if y == x {
                assert(s[p as int] == x);
            }
        }
    }
}

} // verus!
