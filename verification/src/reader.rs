//! The read side of the store: a registry of the segments that a reader has
//! open, and reads of single records through it.
//!
//! A reader opens a segment when it first reads from it and keeps it open.
//! Compaction retires segments; the safe point says below which generation
//! every segment is retired, and a reader closes what it still holds of those
//! before each read.

use vstd::prelude::*;
use crate::command::{parse_record, record_of, Command, CommandView};
use crate::error::KvsError;
use crate::index::CommandPos;
use crate::logdir::{ascending, has_gen, read_range, LogDir};

verus! {

/// A reader of the log.
pub struct KvsStoreReader {
    safe_point: u64,
    handles: Vec<u64>,
}

/// Whether the generations of `s` strictly ascend.
pub open spec fn strictly_ascending(s: Seq<u64>) -> bool {
    forall|i: int, j: int| 0 <= i < j < s.len() ==> s[i] < s[j]
}

/// The bytes of the segment of generation `gen` in `d`; nothing where `d`
/// holds no such segment.
pub open spec fn bytes_of(d: Seq<(u64, Seq<u8>)>, gen: u64) -> Seq<u8>
    decreases d.len(),
{
    if d.len() == 0 {
        Seq::empty()
    } else if d.last().0 == gen {
        d.last().1
    } else {
        bytes_of(d.drop_last(), gen)
    }
}

/// In an ascending directory, the bytes of a generation are those of the
/// segment that carries it.
pub proof fn lemma_bytes_of(d: Seq<(u64, Seq<u8>)>, i: int)
    requires
        ascending(d),
        0 <= i < d.len(),
    ensures
        bytes_of(d, d[i].0) == d[i].1,
    decreases d.len(),
{
    if i < d.len() - 1 {
        assert(d[i].0 < d[d.len() - 1].0);
        assert(d.drop_last()[i] == d[i]);
        assert(ascending(d.drop_last())) by {
            assert forall|a: int, b: int| 0 <= a < b < d.drop_last().len() implies (
            #[trigger] d.drop_last()[a]).0 < (#[trigger] d.drop_last()[b]).0 by {
                assert(d.drop_last()[a] == d[a]);
                assert(d.drop_last()[b] == d[b]);
            }
        }
        lemma_bytes_of(d.drop_last(), i);
    }
}

/// The command of the record that lies at `p` in `d`, if the bytes there are
/// exactly one record.
pub open spec fn record_at(d: Seq<(u64, Seq<u8>)>, p: CommandPos) -> Option<CommandView> {
    record_of(read_range(bytes_of(d, p.gen), p.pos, p.len))
}

impl KvsStoreReader {
    /// The generation below which every segment is retired.
    pub closed spec fn safe_point_view(&self) -> u64 {
        self.safe_point
    }

    /// The generations of the segments that the reader has open, ascending.
    pub closed spec fn handles_view(&self) -> Seq<u64> {
        self.handles@
    }

    /// The invariant of a reader: it holds each segment at most once, in
    /// ascending order.
    pub open spec fn wf(&self) -> bool {
        strictly_ascending(self.handles_view())
    }

    /// A reader with nothing open.
    pub fn new(safe_point: u64) -> (r: KvsStoreReader)
        ensures
            r.wf(),
            r.safe_point_view() == safe_point,
            r.handles_view() == Seq::<u64>::empty(),
    {
        KvsStoreReader { safe_point, handles: Vec::new() }
    }

    /// The safe point.
    pub fn safe_point(&self) -> (sp: u64)
        ensures
            sp == self.safe_point_view(),
    {
        self.safe_point
    }

    /// Moves the safe point.
    pub fn set_safe_point(&mut self, safe_point: u64)
        ensures
            final(self).safe_point_view() == safe_point,
            final(self).handles_view() == old(self).handles_view(),
    {
        self.safe_point = safe_point;
    }

    /// The generations of the segments that the reader has open, ascending.
    pub fn open_generations(&self) -> (gens: Vec<u64>)
        ensures
            gens@ == self.handles_view(),
    {
        self.handles.clone()
    }

    /// Closes the handles on retired segments: those of a generation below
    /// the safe point. The others stay open.
    pub fn close_stale_handles(&mut self)
        requires
            old(self).wf(),
        ensures
            final(self).wf(),
            final(self).safe_point_view() == old(self).safe_point_view(),
            forall|g: u64|
                #[trigger] final(self).handles_view().contains(g) <==> old(self).handles_view().contains(g)
                    && g >= old(self).safe_point_view(),
    {
        let ghost before = self.handles@;
        let ghost mut closed: int = 0;
        while self.handles.len() > 0 && self.handles[0] < self.safe_point
            invariant
                self.safe_point == old(self).safe_point,
                before == old(self).handles@,
                strictly_ascending(before),
                0 <= closed <= before.len(),
                self.handles@ == before.skip(closed),
                forall|i: int| 0 <= i < closed ==> before[i] < self.safe_point,
            decreases self.handles@.len(),
        {
            let _ = self.handles.remove(0);
            proof {
                assert(before[closed] < self.safe_point);
                closed = closed + 1;
                assert(self.handles@ =~= before.skip(closed));
            }
        }
        assert forall|g: u64| #[trigger]
            self.handles@.contains(g) <==> before.contains(g) && g >= self.safe_point by {
            if self.handles@.contains(g) {
                let i = choose|i: int| 0 <= i < self.handles@.len() && self.handles@[i] == g;
                assert(before[i + closed] == g);
                assert(self.handles@[0] >= self.safe_point);
                if i > 0 {
                    assert(before[closed] < before[i + closed]);
                }
            }
            if before.contains(g) && g >= self.safe_point {
                let i = choose|i: int| 0 <= i < before.len() && before[i] == g;
                assert(i >= closed);
                assert(self.handles@[i - closed] == g);
            }
        }
        assert(strictly_ascending(self.handles@)) by {
            assert forall|i: int, j: int| 0 <= i < j < self.handles@.len() implies self.handles@[i]
                < self.handles@[j] by {
                assert(before[i + closed] < before[j + closed]);
            }
        }
    }

    /// Notes that the segment of generation `gen` is open.
    fn hold(&mut self, gen: u64)
        requires
            old(self).wf(),
        ensures
            final(self).wf(),
            final(self).safe_point_view() == old(self).safe_point_view(),
            forall|g: u64|
                #[trigger] final(self).handles_view().contains(g) <==> (g == gen || old(
                    self,
                ).handles_view().contains(g)),
    {
        let ghost before = self.handles@;
        let mut i: usize = 0;
        while i < self.handles.len() && self.handles[i] < gen
            invariant
                i <= self.handles@.len(),
                self.handles@ == before,
                forall|j: int| 0 <= j < i ==> before[j] < gen,
            decreases self.handles@.len() - i,
        {
            i += 1;
        }
        if i < self.handles.len() && self.handles[i] == gen {
            assert(before.contains(gen));
            return ;
        }
        self.handles.insert(i, gen);
        assert(self.handles@ == before.insert(i as int, gen));
        assert forall|g: u64| #[trigger]
            self.handles@.contains(g) <==> (g == gen || before.contains(g)) by {
            if self.handles@.contains(g) {
                let j = choose|j: int| 0 <= j < self.handles@.len() && self.handles@[j] == g;
                if j < i {
                    assert(before[j] == g);
                } else if j > i {
                    assert(before[j - 1] == g);
                }
            }
            if g == gen {
                assert(self.handles@[i as int] == g);
            }
            if before.contains(g) {
                let j = choose|j: int| 0 <= j < before.len() && before[j] == g;
                if j < i {
                    assert(self.handles@[j] == g);
                } else {
                    assert(self.handles@[j + 1] == g);
                }
            }
        }
        assert(strictly_ascending(self.handles@)) by {
            assert forall|a: int, b: int| 0 <= a < b < self.handles@.len() implies self.handles@[a]
                < self.handles@[b] by {
                let a0 = if a < i { a } else { a - 1 };
                let b0 = if b < i { b } else { b - 1 };
                if a != i && b != i {
                    assert(before[a0] < before[b0]);
                } else if a == i {
                    assert(before[i as int] <= before[b0]);
                }
            }
        }
    }

    /// Reads the bytes of the record at `cmd_pos`, or as many of them as the
    /// segment holds. Retired segments are closed first; the segment read from
    /// is opened if it is not yet, and stays open. Fails with `Io` where the
    /// directory holds no segment of that generation.
    pub fn read_and(&mut self, dir: &LogDir, cmd_pos: CommandPos) -> (r: Result<Vec<u8>, KvsError>)
        requires
            old(self).wf(),
            dir.wf(),
        ensures
            final(self).wf(),
            final(self).safe_point_view() == old(self).safe_point_view(),
            match r {
                Ok(bytes) => {
                    &&& has_gen(dir@, cmd_pos.gen)
                    &&& bytes@ == read_range(bytes_of(dir@, cmd_pos.gen), cmd_pos.pos, cmd_pos.len)
                    &&& forall|g: u64|
                        #[trigger] final(self).handles_view().contains(g) <==> g == cmd_pos.gen || (old(
                            self,
                        ).handles_view().contains(g) && g >= old(self).safe_point_view())
                },
                Err(e) => {
                    &&& e is Io
                    &&& !has_gen(dir@, cmd_pos.gen)
                    &&& forall|g: u64|
                        #[trigger] final(self).handles_view().contains(g) <==> old(
                            self,
                        ).handles_view().contains(g) && g >= old(self).safe_point_view()
                },
            },
    {
        self.close_stale_handles();
        match dir.read(cmd_pos.gen, cmd_pos.pos, cmd_pos.len) {
            Ok(bytes) => {
                proof {
                    let i = choose|i: int|
                        0 <= i < dir@.len() && (#[trigger] dir@[i]).0 == cmd_pos.gen && bytes@
                            == read_range(dir@[i].1, cmd_pos.pos, cmd_pos.len);
                    lemma_bytes_of(dir@, i);
                }
                self.hold(cmd_pos.gen);
                Ok(bytes)
            },
            Err(e) => Err(e),
        }
    }

    /// Reads the command of the record at `cmd_pos`. Fails with `Io` where the
    /// directory holds no segment of that generation, and with `Serde` where
    /// the bytes at that position are not exactly one record.
    pub fn read_command(&mut self, dir: &LogDir, cmd_pos: CommandPos) -> (r: Result<
        Command,
        KvsError,
    >)
        requires
            old(self).wf(),
            dir.wf(),
        ensures
            final(self).wf(),
            final(self).safe_point_view() == old(self).safe_point_view(),
            match r {
                Ok(c) => has_gen(dir@, cmd_pos.gen) && record_at(dir@, cmd_pos) == Some(c@),
                Err(e) => if has_gen(dir@, cmd_pos.gen) {
                    record_at(dir@, cmd_pos) is None && e is Serde
                } else {
                    e is Io
                },
            },
    {
        match self.read_and(dir, cmd_pos) {
            Ok(bytes) => parse_record(bytes.as_slice()),
            Err(e) => Err(e),
        }
    }
}

impl Clone for KvsStoreReader {
    /// A reader of the same log with handles of its own: it has the safe
    /// point of this reader and nothing open.
    fn clone(&self) -> (r: Self)
        ensures
            r.wf(),
            r.safe_point_view() == self.safe_point_view(),
            r.handles_view() == Seq::<u64>::empty(),
    {
        KvsStoreReader { safe_point: self.safe_point, handles: Vec::new() }
    }
}

} // verus!
