//! The log directory: the segments of the log, each an append-only run of
//! bytes under its generation number.
//!
//! The directory is held as plain values, so the store's logic can be stated
//! and checked without a file system. A caller that keeps the log on disk
//! mirrors each segment in a file of the name that `log_path` gives.

use vstd::prelude::*;
use vstd::slice::slice_subrange;
use crate::error::KvsError;

verus! {

/// One segment: its generation and the bytes written to it so far.
pub struct Segment {
    gen: u64,
    bytes: Vec<u8>,
}

/// The segments of a log, in ascending order of their generations.
pub struct LogDir {
    segments: Vec<Segment>,
}

/// Whether the generations of `d` strictly ascend, so that none occurs twice.
pub open spec fn ascending(d: Seq<(u64, Seq<u8>)>) -> bool {
    forall|i: int, j: int| 0 <= i < j < d.len() ==> (#[trigger] d[i]).0 < (#[trigger] d[j]).0
}

/// Whether `d` holds a segment of generation `gen`.
pub open spec fn has_gen(d: Seq<(u64, Seq<u8>)>, gen: u64) -> bool {
    exists|i: int| 0 <= i < d.len() && (#[trigger] d[i]).0 == gen
}

/// The place of generation `gen` in `d`: the number of segments of `d` whose
/// generation is smaller.
pub open spec fn rank(d: Seq<(u64, Seq<u8>)>, gen: u64) -> int
    decreases d.len(),
{
    if d.len() == 0 {
        0
    } else if d.last().0 < gen {
        d.len() as int
    } else {
        rank(d.drop_last(), gen)
    }
}

/// The generations of `d`, in its order.
pub open spec fn gens_of(d: Seq<(u64, Seq<u8>)>) -> Seq<u64> {
    Seq::new(d.len(), |i: int| d[i].0)
}

/// The part of `bytes` that a read of `len` bytes at offset `pos` returns: the
/// bytes asked for, as far as the segment reaches.
pub open spec fn read_range(bytes: Seq<u8>, pos: u64, len: u64) -> Seq<u8> {
    let start = if pos <= bytes.len() { pos as int } else { bytes.len() as int };
    let end = if pos + len <= bytes.len() { pos + len } else { bytes.len() as int };
    bytes.subrange(start, end)
}

/// In an ascending directory the rank of a generation is where it stands, or
/// where it would be put.
pub proof fn lemma_rank(d: Seq<(u64, Seq<u8>)>, gen: u64)
    requires
        ascending(d),
    ensures
        0 <= rank(d, gen) <= d.len(),
        forall|i: int| 0 <= i < rank(d, gen) ==> (#[trigger] d[i]).0 < gen,
        forall|i: int| rank(d, gen) <= i < d.len() ==> (#[trigger] d[i]).0 >= gen,
    decreases d.len(),
{
    if d.len() > 0 && !(d.last().0 < gen) {
        lemma_rank(d.drop_last(), gen);
        assert forall|i: int| 0 <= i < rank(d, gen) implies (#[trigger] d[i]).0 < gen by {
            assert(d.drop_last()[i] == d[i]);
        }
        assert forall|i: int| rank(d, gen) <= i < d.len() implies (#[trigger] d[i]).0 >= gen by {
            if i < d.len() - 1 {
                assert(d.drop_last()[i] == d[i]);
            }
        }
    }
}

impl View for LogDir {
    type V = Seq<(u64, Seq<u8>)>;

    closed spec fn view(&self) -> Seq<(u64, Seq<u8>)> {
        Seq::new(self.segments@.len(), |i: int| (self.segments@[i].gen, self.segments@[i].bytes@))
    }
}

impl LogDir {
    /// The invariant of a directory: its generations strictly ascend.
    pub open spec fn wf(&self) -> bool {
        ascending(self@)
    }

    /// A directory without segments.
    pub fn new() -> (d: LogDir)
        ensures
            d@ == Seq::<(u64, Seq<u8>)>::empty(),
            d.wf(),
    {
        let d = LogDir { segments: Vec::new() };
        assert(d@ =~= Seq::<(u64, Seq<u8>)>::empty());
        d
    }

    /// The number of segments.
    pub fn len(&self) -> (n: usize)
        ensures
            n == self@.len(),
    {
        self.segments.len()
    }

    /// The generation of the segment at place `i`.
    pub fn gen_at(&self, i: usize) -> (gen: u64)
        requires
            i < self@.len(),
        ensures
            gen == self@[i as int].0,
    {
        self.segments[i].gen
    }

    /// The number of bytes in the segment at place `i`.
    pub fn size_at(&self, i: usize) -> (n: usize)
        requires
            i < self@.len(),
        ensures
            n == self@[i as int].1.len(),
    {
        self.segments[i].bytes.len()
    }

    /// The bytes of the segment at place `i`.
    pub fn bytes_at(&self, i: usize) -> (bytes: &[u8])
        requires
            i < self@.len(),
        ensures
            bytes@ == self@[i as int].1,
    {
        self.segments[i].bytes.as_slice()
    }

    /// The place of the segment of generation `gen`, if the directory holds
    /// one.
    pub fn find(&self, gen: u64) -> (r: Option<usize>)
        ensures
            match r {
                Some(i) => i < self@.len() && self@[i as int].0 == gen,
                None => !has_gen(self@, gen),
            },
    {
        let mut i: usize = 0;
        while i < self.segments.len()
            invariant
                i <= self.segments@.len(),
                forall|j: int| 0 <= j < i ==> (#[trigger] self@[j]).0 != gen,
            decreases self.segments@.len() - i,
        {
            if self.segments[i].gen == gen {
                return Some(i);
            }
            i += 1;
        }
        None
    }

    /// The generations of all segments, ascending.
    pub fn generations(&self) -> (gens: Vec<u64>)
        ensures
            gens@ == gens_of(self@),
    {
        let mut gens: Vec<u64> = Vec::new();
        let mut i: usize = 0;
        while i < self.segments.len()
            invariant
                i <= self.segments@.len(),
                gens@ == gens_of(self@).subrange(0, i as int),
            decreases self.segments@.len() - i,
        {
            gens.push(self.segments[i].gen);
            assert(gens@ =~= gens_of(self@).subrange(0, i + 1));
            i += 1;
        }
        assert(gens@ =~= gens_of(self@));
        gens
    }

    /// Opens the segment of generation `gen` for appending: a segment that is
    /// there stays as it is, one that is not is created empty, in its place
    /// among the others.
    pub fn create(&mut self, gen: u64)
        requires
            old(self).wf(),
        ensures
            final(self).wf(),
            final(self)@ == if has_gen(old(self)@, gen) {
                old(self)@
            } else {
                old(self)@.insert(rank(old(self)@, gen), (gen, Seq::<u8>::empty()))
            },
    {
        proof {
            lemma_rank(self@, gen);
        }
        let mut i: usize = 0;
        while i < self.segments.len() && self.segments[i].gen < gen
            invariant
                i <= self.segments@.len(),
                forall|j: int| 0 <= j < i ==> (#[trigger] self@[j]).0 < gen,
            decreases self.segments@.len() - i,
        {
            i += 1;
        }
        assert(i == rank(self@, gen)) by {
            if i < rank(self@, gen) {
                assert(self@[i as int].0 < gen);
            }
            if i > rank(self@, gen) {
                assert(self@[rank(self@, gen)].0 >= gen);
            }
        }
        if i < self.segments.len() && self.segments[i].gen == gen {
            assert(self@[i as int].0 == gen);
            return ;
        }
        assert(!has_gen(self@, gen)) by {
            if has_gen(self@, gen) {
                let j = choose|j: int| 0 <= j < self@.len() && (#[trigger] self@[j]).0 == gen;
                if j < i {
                    assert(self@[j].0 < gen);
                } else if j > i {
                    assert(self@[i as int].0 < self@[j].0);
                }
            }
        }
        let ghost before = self@;
        self.segments.insert(i, Segment { gen, bytes: Vec::new() });
        assert(self@ =~= before.insert(i as int, (gen, Seq::<u8>::empty())));
        assert(ascending(self@)) by {
            assert forall|a: int, b: int| 0 <= a < b < self@.len() implies (#[trigger] self@[a]).0 < (
            #[trigger] self@[b]).0 by {
                let a0 = if a < i { a } else { a - 1 };
                let b0 = if b < i { b } else { b - 1 };
                if a != i {
                    assert(self@[a] == before[a0]);
                }
                if b != i {
                    assert(self@[b] == before[b0]);
                }
            }
        }
    }

    /// Appends `data` to the segment of generation `gen`. Fails with `Io`,
    /// changing nothing, where the directory holds no such segment.
    pub fn append(&mut self, gen: u64, data: &[u8]) -> (r: Result<(), KvsError>)
        requires
            old(self).wf(),
        ensures
            final(self).wf(),
            match r {
                Ok(()) => exists|i: int|
                    0 <= i < old(self)@.len() && (#[trigger] old(self)@[i]).0 == gen && final(self)@
                        == old(self)@.update(i, (gen, old(self)@[i].1 + data@)),
                Err(e) => e is Io && !has_gen(old(self)@, gen) && final(self)@ == old(self)@,
            },
    {
        match self.find(gen) {
            Some(i) => {
                let ghost before = self@;
                let ghost segs = self.segments@;
                let mut seg = self.segments.remove(i);
                assert(seg == segs[i as int]);
                assert(self.segments@ == segs.remove(i as int));
                seg.bytes.extend_from_slice(data);
                let ghost grown = seg;
                self.segments.insert(i, seg);
                assert(self.segments@ == segs.remove(i as int).insert(i as int, grown));
                assert forall|j: int| 0 <= j < self@.len() implies self@[j] == before.update(
                    i as int,
                    (gen, before[i as int].1 + data@),
                )[j] by {
                    if j < i {
                        assert(self.segments@[j] == segs[j]);
                    } else if j > i {
                        assert(self.segments@[j] == segs[j]);
                    }
                    assert(before[j] == (segs[j].gen, segs[j].bytes@));
                }
                assert(self@ =~= before.update(i as int, (gen, before[i as int].1 + data@)));
                assert(ascending(self@)) by {
                    assert forall|a: int, b: int| 0 <= a < b < self@.len() implies (
                    #[trigger] self@[a]).0 < (#[trigger] self@[b]).0 by {
                        assert(self@[a].0 == before[a].0);
                        assert(self@[b].0 == before[b].0);
                    }
                }
                Ok(())
            },
            None => Err(KvsError::Io("no such segment".to_string())),
        }
    }

    /// Reads `len` bytes at offset `pos` of the segment of generation `gen`,
    /// or as many of them as the segment holds. Fails with `Io` where the
    /// directory holds no such segment.
    pub fn read(&self, gen: u64, pos: u64, len: u64) -> (r: Result<Vec<u8>, KvsError>)
        ensures
            match r {
                Ok(bytes) => exists|i: int|
                    0 <= i < self@.len() && (#[trigger] self@[i]).0 == gen && bytes@ == read_range(
                        self@[i].1,
                        pos,
                        len,
                    ),
                Err(e) => e is Io && !has_gen(self@, gen),
            },
    {
        match self.find(gen) {
            Some(i) => {
                let all = self.segments[i].bytes.as_slice();
                let size: usize = all.len();
                let start: usize = if pos <= size as u64 {
                    pos as usize
                } else {
                    size
                };
                let end: usize = if len <= size as u64 && pos <= size as u64 - len {
                    (pos + len) as usize
                } else {
                    size
                };
                let part = slice_subrange(all, start, end);
                let mut out: Vec<u8> = Vec::new();
                out.extend_from_slice(part);
                assert(out@ =~= read_range(self@[i as int].1, pos, len));
                Ok(out)
            },
            None => Err(KvsError::Io("no such segment".to_string())),
        }
    }

    /// Deletes the segment of generation `gen`, if the directory holds one,
    /// and says whether it did.
    pub fn remove(&mut self, gen: u64) -> (r: bool)
        requires
            old(self).wf(),
        ensures
            final(self).wf(),
            r == has_gen(old(self)@, gen),
            r ==> exists|i: int|
                0 <= i < old(self)@.len() && (#[trigger] old(self)@[i]).0 == gen && final(self)@
                    == old(self)@.remove(i),
            !r ==> final(self)@ == old(self)@,
    {
        match self.find(gen) {
            Some(i) => {
                let ghost before = self@;
                let _ = self.segments.remove(i);
                assert(self@ =~= before.remove(i as int));
                assert(ascending(self@)) by {
                    assert forall|a: int, b: int| 0 <= a < b < self@.len() implies (
                    #[trigger] self@[a]).0 < (#[trigger] self@[b]).0 by {
                        let a0 = if a < i { a } else { a + 1 };
                        let b0 = if b < i { b } else { b + 1 };
                        assert(self@[a] == before[a0]);
                        assert(self@[b] == before[b0]);
                    }
                }
                true
            },
            None => false,
        }
    }
}

} // verus!
