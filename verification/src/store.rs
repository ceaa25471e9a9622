//! The storage engine: a log of commands, an index of the live records, and
//! compaction of the log once too much of it is dead.

use vstd::prelude::*;
use crossbeam_skiplist::SkipMap;
use crate::command::{
    encode_put, encode_remove, lemma_reads_alone, reads_as, record_bytes, Command, CommandView,
};
use crate::compaction::{chunks_of, copy_live, lists, open_compaction_segments, retire_segments};
use crate::error::KvsError;
use crate::index::{
    index_contains_key, index_entries, index_get, index_insert, index_list, index_new,
    index_remove, CommandPos,
};
use crate::logdir::{ascending, has_gen, lemma_rank, LogDir};
use crate::reader::{lemma_bytes_of, record_at, KvsStoreReader};
use crate::replay::{
    apply, dir_ok, empty_state, lemma_replay_split, lemma_replay_valid, lemma_single_record,
    load_from, log_ok, replay_dir, replay_log, saturate, saturating_count, sizes_fit, ReplayState,
};

verus! {

/// The number of dead bytes in the log beyond which the store compacts it.
pub const COMPACTION_THRESHOLD: u64 = 1024 * 1024;

/// A store as contracts speak of it.
pub struct StoreView {
    /// The segments of the log, ascending.
    pub dir: Seq<(u64, Seq<u8>)>,
    /// The index: for each live key, where its record lies.
    pub index: Map<Seq<char>, CommandPos>,
    /// The generation of the segment that is written to.
    pub current_gen: u64,
    /// The count of dead bytes in the log.
    pub uncompacted: u64,
    /// The generation below which every segment is retired.
    pub safe_point: u64,
}

/// The invariant of a store. The generations of its segments are distinct and
/// ascend, and the segment written to is the last. Every segment is a log.
/// The index and the count of dead bytes are what a replay of the log gives.
/// No segment lies below the safe point.
pub open spec fn store_ok(v: StoreView) -> bool {
    &&& ascending(v.dir)
    &&& v.dir.len() > 0
    &&& v.dir.last().0 == v.current_gen
    &&& dir_ok(v.dir)
    &&& sizes_fit(v.dir)
    &&& v.index == replay_dir(v.dir).index
    &&& v.uncompacted == saturate(replay_dir(v.dir).dead)
    &&& forall|i: int| 0 <= i < v.dir.len() ==> (#[trigger] v.dir[i]).0 >= v.safe_point
}

/// What the store holds: the value of each live key, as the log gives it.
pub open spec fn contents_of(v: StoreView) -> Map<Seq<char>, Seq<char>> {
    replay_dir(v.dir).values
}

/// The generation that a store opened on the directory `d` writes to: one
/// past the last of `d`, or 1 for an empty directory.
pub open spec fn next_gen(d: Seq<(u64, Seq<u8>)>) -> int {
    if d.len() == 0 {
        1
    } else {
        d.last().0 + 1
    }
}

/// The store that opening the directory `d` gives: the log of `d` with a new,
/// empty segment to write to, and the index and the count of dead bytes that
/// a replay of `d` gives.
pub open spec fn opened(d: Seq<(u64, Seq<u8>)>) -> StoreView {
    StoreView {
        dir: d.push((next_gen(d) as u64, Seq::empty())),
        index: replay_dir(d).index,
        current_gen: next_gen(d) as u64,
        uncompacted: saturate(replay_dir(d).dead),
        safe_point: 0,
    }
}

/// A new empty segment after the others changes nothing of what a replay
/// gives.
pub proof fn lemma_replay_push_empty(d: Seq<(u64, Seq<u8>)>, gen: u64)
    ensures
        replay_dir(d.push((gen, Seq::empty()))) == replay_dir(d),
{
    let e = d.push((gen, Seq::<u8>::empty()));
    assert(e.drop_last() =~= d);
}

/// A log-structured key-value store.
///
/// Every `set` and `remove` is appended to the log as one record; the index
/// maps each live key to its record, from which `get` reads the value. Records
/// that are superseded or removed stay in the log as dead bytes until their
/// count passes `COMPACTION_THRESHOLD`; the store then copies the live records
/// into a fresh segment and drops all older segments.
pub struct KvStore {
    dir: LogDir,
    index: SkipMap<String, CommandPos>,
    reader: KvsStoreReader,
    current_gen: u64,
    uncompacted: u64,
}

impl View for KvStore {
    type V = StoreView;

    closed spec fn view(&self) -> StoreView {
        StoreView {
            dir: self.dir@,
            index: index_entries(self.index),
            current_gen: self.current_gen,
            uncompacted: self.uncompacted,
            safe_point: self.reader.safe_point_view(),
        }
    }
}

impl KvStore {
    /// The invariant of a store: `store_ok` of its view, and a reader whose
    /// handles are in order.
    pub closed spec fn wf(&self) -> bool {
        &&& store_ok(self@)
        &&& self.reader.wf()
    }

    /// What the store holds: the value of each live key.
    pub open spec fn contents(&self) -> Map<Seq<char>, Seq<char>> {
        contents_of(self@)
    }

    /// The invariant of a store is that of its view.
    pub proof fn lemma_wf(&self)
        requires
            self.wf(),
        ensures
            store_ok(self@),
    {
    }

    /// A store on an empty log: it holds nothing, and writes to generation 1.
    pub fn new() -> (store: KvStore)
        ensures
            store.wf(),
            store@ == opened(Seq::empty()),
            store.contents() == Map::<Seq<char>, Seq<char>>::empty(),
    {
        let mut dir = LogDir::new();
        proof {
            lemma_rank(dir@, 1);
        }
        dir.create(1);
        let index = index_new();
        let store = KvStore { dir, index, reader: KvsStoreReader::new(0), current_gen: 1, uncompacted: 0 };
        proof {
            let d0 = Seq::<(u64, Seq<u8>)>::empty();
            assert(store@.dir =~= d0.push((1u64, Seq::empty())));
            lemma_replay_push_empty(d0, 1);
            assert(store@.index =~= opened(d0).index);
            assert(store@ == opened(d0));
            assert(dir_ok(store@.dir));
            assert(sizes_fit(store@.dir));
        }
        store
    }

    /// Opens a store on the log in `dir`. Replays the segments in ascending
    /// order of their generations to rebuild the index and the count of dead
    /// bytes, then adds an empty segment of the next generation to write to.
    ///
    /// Fails with `Serde` where a segment is not a log, and with `Io` where
    /// no generation is left for the new segment.
    pub fn open(dir: LogDir) -> (r: Result<KvStore, KvsError>)
        requires
            dir.wf(),
        ensures
            match r {
                Ok(store) => {
                    &&& store.wf()
                    &&& store@ == opened(dir@)
                    &&& dir_ok(dir@)
                    &&& next_gen(dir@) <= u64::MAX
                },
                Err(e) => if dir_ok(dir@) {
                    e is Io && next_gen(dir@) > u64::MAX
                } else {
                    e is Serde
                },
            },
    {
        let mut log = dir;
        let mut index = index_new();
        let mut uncompacted: u64 = 0;
        let ghost mut s = empty_state();
        assert(index_entries(index) =~= s.index);
        let count = log.len();
        let mut i: usize = 0;
        while i < count
            invariant
                log@ == dir@,
                count == log@.len(),
                i <= count,
                s == replay_dir(log@.subrange(0, i as int)),
                index_entries(index) == s.index,
                uncompacted == saturate(s.dead),
                forall|j: int| 0 <= j < i ==> log_ok((#[trigger] log@[j]).1),
                forall|j: int| 0 <= j < i ==> (#[trigger] log@[j]).1.len() <= u64::MAX,
            decreases count - i,
        {
            let gen = log.gen_at(i);
            let size = log.size_at(i);
            proof {
                let part = log@.subrange(0, i + 1);
                assert(part.drop_last() =~= log@.subrange(0, i as int));
                assert(part.last() == log@[i as int]);
            }
            match load_from(gen, log.bytes_at(i), &mut index, uncompacted, Ghost(s)) {
                Ok(u) => {
                    uncompacted = u;
                },
                Err(e) => {
                    proof {
                        if dir_ok(dir@) {
                            assert(log_ok(log@[i as int].1));
                        }
                    }
                    return Err(e);
                },
            }
            proof {
                s = replay_log(s, gen, log@[i as int].1, 0);
            }
            i += 1;
        }
        assert(log@.subrange(0, count as int) =~= log@);
        let current_gen: u64 = if count == 0 {
            1
        } else {
            let last = log.gen_at(count - 1);
            if last == u64::MAX {
                return Err(KvsError::Io("no generation is left".to_string()));
            }
            last + 1
        };
        let ghost d0 = log@;
        proof {
            lemma_rank(d0, current_gen);
            if has_gen(d0, current_gen) {
                let j = choose|j: int| 0 <= j < d0.len() && (#[trigger] d0[j]).0 == current_gen;
                if j < d0.len() - 1 {
                    assert(d0[j].0 < d0[d0.len() - 1].0);
                }
            }
            lemma_replay_push_empty(d0, current_gen);
        }
        log.create(current_gen);
        assert(log@ =~= d0.push((current_gen, Seq::empty())));
        let store = KvStore { dir: log, index, reader: KvsStoreReader::new(0), current_gen, uncompacted };
        proof {
            assert(store@.index =~= opened(d0).index);
            assert(store@ == opened(d0));
            assert(dir_ok(store@.dir)) by {
                assert forall|j: int| 0 <= j < store@.dir.len() implies log_ok(
                    (#[trigger] store@.dir[j]).1,
                ) by {
                    if j < d0.len() {
                        assert(store@.dir[j] == d0[j]);
                    }
                }
            }
            assert(sizes_fit(store@.dir)) by {
                assert forall|j: int| 0 <= j < store@.dir.len() implies (
                #[trigger] store@.dir[j]).1.len() <= u64::MAX by {
                    if j < d0.len() {
                        assert(store@.dir[j] == d0[j]);
                    }
                }
            }
        }
        Ok(store)
    }

    /// The generation of the segment that is written to.
    pub fn current_gen(&self) -> (gen: u64)
        ensures
            gen == self@.current_gen,
    {
        self.current_gen
    }

    /// The count of dead bytes in the log.
    pub fn uncompacted(&self) -> (n: u64)
        ensures
            n == self@.uncompacted,
    {
        self.uncompacted
    }

    /// The generation below which every segment is retired.
    pub fn safe_point(&self) -> (gen: u64)
        ensures
            gen == self@.safe_point,
    {
        self.reader.safe_point()
    }

    /// Closes the store and hands back its log.
    pub fn into_dir(self) -> (dir: LogDir)
        requires
            self.wf(),
        ensures
            dir@ == self@.dir,
            dir.wf(),
    {
        self.dir
    }

    /// The log.
    pub fn dir(&self) -> (dir: &LogDir)
        requires
            self.wf(),
        ensures
            dir@ == self@.dir,
            dir.wf(),
    {
        &self.dir
    }

    /// The value of `key`, or `None` where the store holds none. The value is
    /// read from the log, at the position that the index gives.
    pub fn get(&mut self, key: String) -> (r: Result<Option<String>, KvsError>)
        requires
            old(self).wf(),
        ensures
            final(self).wf(),
            final(self)@ == old(self)@,
            match r {
                Ok(Some(v)) => old(self).contents().contains_key(key@) && v@ == old(
                    self,
                ).contents()[key@],
                Ok(None) => !old(self).contents().contains_key(key@),
                Err(_) => false,
            },
    {
        proof {
            lemma_replay_valid(self@.dir);
        }
        if let Some(cmd_pos) = index_get(&self.index, key.as_str()) {
            proof {
                let d = self@.dir;
                let v = contents_of(self@)[key@];
                let i = choose|i: int|
                    0 <= i < d.len() && (#[trigger] d[i]).0 == cmd_pos.gen && cmd_pos.len > 0
                        && cmd_pos.pos + cmd_pos.len <= d[i].1.len() && reads_as(
                        d[i].1.subrange(cmd_pos.pos as int, cmd_pos.pos + cmd_pos.len),
                        CommandView::Put { key: key@, value: v },
                    );
                lemma_bytes_of(d, i);
                lemma_reads_alone(
                    d[i].1.subrange(cmd_pos.pos as int, cmd_pos.pos + cmd_pos.len),
                    CommandView::Put { key: key@, value: v },
                );
                assert(record_at(d, cmd_pos) == Some(CommandView::Put { key: key@, value: v }));
            }
            match self.reader.read_command(&self.dir, cmd_pos) {
                Ok(Command::Put { key: _, value }) => Ok(Some(value)),
                Ok(Command::Remove { key: _ }) => Err(KvsError::UnexceptedCommandType),
                Err(e) => Err(e),
            }
        } else {
            Ok(None)
        }
    }
}

/// The log `d` after `rec` is appended to its last segment.
pub open spec fn appended(d: Seq<(u64, Seq<u8>)>, rec: Seq<u8>) -> Seq<(u64, Seq<u8>)> {
    d.update(d.len() - 1, (d.last().0, d.last().1 + rec))
}

/// The store after the record of `c` is appended and the index and the count
/// of dead bytes have followed, before any compaction.
pub open spec fn after_command(v: StoreView, c: CommandView) -> StoreView {
    let s = apply(
        ReplayState { index: v.index, values: Map::empty(), dead: v.uncompacted as nat },
        v.current_gen,
        c,
        v.dir.last().1.len(),
        record_bytes(c).len(),
    );
    StoreView {
        dir: appended(v.dir, record_bytes(c)),
        index: s.index,
        current_gen: v.current_gen,
        uncompacted: saturate(s.dead),
        safe_point: v.safe_point,
    }
}

/// Whether `after` is `before` compacted: the log is one segment of the live
/// records, copied as they are in ascending order of their keys, of the
/// generation after the one that was written to, and a new empty segment to
/// write to; the older segments are gone and the safe point
/// has moved up to the compaction segment; the store holds what it held,
/// every index entry points into the compaction segment at a record of the
/// length it had, and nothing in the log is dead.
pub open spec fn compacted(before: StoreView, after: StoreView) -> bool {
    &&& store_ok(after)
    &&& after.current_gen == before.current_gen + 2
    &&& after.safe_point == before.current_gen + 1
    &&& after.uncompacted == 0
    &&& replay_dir(after.dir).dead == 0
    &&& after.dir.len() == 2
    &&& after.dir[0].0 == before.current_gen + 1
    &&& after.dir[1] == (after.current_gen, Seq::<u8>::empty())
    &&& contents_of(after) == contents_of(before)
    &&& exists|entries: Seq<(String, CommandPos)>| #[trigger]
        lists(entries, before.index) && after.dir[0].1 == chunks_of(before.dir, entries)
    &&& forall|k: Seq<char>| #[trigger]
        after.index.contains_key(k) <==> before.index.contains_key(k)
    &&& forall|k: Seq<char>| #[trigger]
        before.index.contains_key(k) ==> after.index[k].gen == after.safe_point
            && after.index[k].len == before.index[k].len
}

/// Appending a record to the last segment of a directory of logs applies its
/// command to what a replay gives.
pub proof fn lemma_append(d: Seq<(u64, Seq<u8>)>, rec: Seq<u8>, c: CommandView)
    requires
        d.len() > 0,
        dir_ok(d),
        reads_as(rec, c),
        rec.len() > 0,
    ensures
        dir_ok(appended(d, rec)),
        replay_dir(appended(d, rec)) == apply(
            replay_dir(d),
            d.last().0,
            c,
            d.last().1.len(),
            rec.len(),
        ),
        ascending(d) ==> ascending(appended(d, rec)),
{
    let e = appended(d, rec);
    let s = replay_dir(d.drop_last());
    assert(e.drop_last() =~= d.drop_last());
    assert(log_ok(d[d.len() - 1].1));
    lemma_replay_split(s, d.last().0, d.last().1, rec, 0);
    lemma_single_record(replay_dir(d), d.last().0, rec, c, d.last().1.len());
    assert forall|i: int| 0 <= i < e.len() implies log_ok((#[trigger] e[i]).1) by {
        if i < d.len() - 1 {
            assert(e[i] == d[i]);
        }
    }
    if ascending(d) {
        assert forall|i: int, j: int| 0 <= i < j < e.len() implies (#[trigger] e[i]).0 < (
        #[trigger] e[j]).0 by {
            assert(e[i].0 == d[i].0);
            assert(e[j].0 == d[j].0);
        }
    }
}

/// The store after a command, before any compaction, is a store, and holds
/// what the command makes of what it held.
pub proof fn lemma_after_command(v: StoreView, c: CommandView)
    requires
        store_ok(v),
        can_log(v, c),
    ensures
        store_ok(after_command(v, c)),
        replay_dir(after_command(v, c).dir) == apply(
            replay_dir(v.dir),
            v.current_gen,
            c,
            v.dir.last().1.len(),
            record_bytes(c).len(),
        ),
{
    let w = after_command(v, c);
    crate::command::lemma_record_bytes_len(c);
    lemma_append(v.dir, record_bytes(c), c);
    assert(w.index =~= replay_dir(w.dir).index);
    assert(sizes_fit(w.dir)) by {
        assert forall|i: int| 0 <= i < w.dir.len() implies (#[trigger] w.dir[i]).1.len()
            <= u64::MAX by {
            if i < v.dir.len() - 1 {
                assert(w.dir[i] == v.dir[i]);
            }
        }
    }
    assert forall|i: int| 0 <= i < w.dir.len() implies (#[trigger] w.dir[i]).0
        >= w.safe_point by {
        assert(w.dir[i].0 == v.dir[i].0);
    }
}

impl KvStore {
    /// Compacts the log. Opens two new segments, one to write to from now on
    /// and, one generation below it, the compaction segment; copies the record
    /// of every live key into the compaction segment and points the index at
    /// the copy; moves the safe point up to the compaction segment; deletes
    /// every older segment; and counts no byte dead any more.
    ///
    /// Fails with `Io`, changing nothing, where no two generations are left.
    pub fn compact(&mut self) -> (r: Result<(), KvsError>)
        requires
            old(self).wf(),
        ensures
            final(self).wf(),
            match r {
                Ok(()) => old(self)@.current_gen <= u64::MAX - 2 && compacted(
                    old(self)@,
                    final(self)@,
                ),
                Err(e) => e is Io && old(self)@.current_gen > u64::MAX - 2 && final(self)@ == old(
                    self,
                )@,
            },
    {
        if self.current_gen > u64::MAX - 2 {
            return Err(KvsError::Io("no generation is left".to_string()));
        }
        let ghost d0 = self@.dir;
        let ghost s0 = replay_dir(d0);
        let ghost v0 = self@;
        let compaction_gen: u64 = self.current_gen + 1;
        proof {
            lemma_replay_valid(d0);
        }
        open_compaction_segments(&mut self.dir, self.current_gen);
        self.current_gen = self.current_gen + 2;
        let entries = index_list(&self.index);
        let copy = copy_live(
            &mut self.dir,
            &mut self.index,
            &mut self.reader,
            &entries,
            compaction_gen,
            Ghost(d0),
            Ghost(s0),
        );
        let ghost copied = copy.1@;
        match copy.0 {
            Ok(()) => {},
            Err(e) => {
                return Err(e);
            },
        }
        self.reader.set_safe_point(compaction_gen);
        retire_segments(&mut self.dir, compaction_gen, Ghost(d0), Ghost(copied));
        self.uncompacted = 0;
        proof {
            lemma_compaction_done(v0, self@, copied, entries@);
        }
        Ok(())
    }

    /// Binds `key` to `value`. Appends the record to the log, then points the
    /// index at it and counts an earlier record of `key` as dead; compacts the
    /// log if more than `COMPACTION_THRESHOLD` bytes are then dead.
    ///
    /// Fails with `Io` where the log is due for compaction and no two
    /// generations are left; the binding is made all the same.
    pub fn set(&mut self, key: String, value: String) -> (r: Result<(), KvsError>)
        requires
            old(self).wf(),
        ensures
            final(self).wf(),
            final(self).contents() == old(self).contents().insert(key@, value@),
            set_outcome(
                old(self)@,
                CommandView::Put { key: key@, value: value@ },
                final(self)@,
                r,
            ),
    {
        let ghost c = CommandView::Put { key: key@, value: value@ };
        let ghost v0 = self@;
        let rec = encode_put(key.as_str(), value.as_str());
        let last: usize = self.dir.len() - 1;
        let pos: usize = self.dir.size_at(last);
        match self.dir.append(self.current_gen, rec.as_slice()) {
            Ok(()) => {},
            Err(e) => {
                proof {
                    assert(v0.dir[last as int].0 == self.current_gen);
                }
                return Err(e);
            },
        }
        let size: usize = self.dir.size_at(last);
        proof {
            let j = choose|j: int|
                0 <= j < v0.dir.len() && (#[trigger] v0.dir[j]).0 == self.current_gen && self.dir@
                    == v0.dir.update(j, (self.current_gen, v0.dir[j].1 + rec@));
            if j < last {
                assert(v0.dir[j].0 < v0.dir[last as int].0);
            }
            assert(self.dir@ == appended(v0.dir, rec@));
            lemma_after_command(v0, c);
        }
        if let Some(old_cmd) = index_get(&self.index, key.as_str()) {
            self.uncompacted = saturating_count(self.uncompacted, old_cmd.len);
        }
        index_insert(
            &mut self.index,
            key,
            CommandPos { gen: self.current_gen, pos: pos as u64, len: rec.len() as u64 },
        );
        proof {
            assert(self@.index =~= after_command(v0, c).index);
            assert(self@ == after_command(v0, c));
        }
        if self.uncompacted > COMPACTION_THRESHOLD {
            return self.compact();
        }
        Ok(())
    }

    /// Unbinds `key`. Appends the record to the log, then drops the key from
    /// the index and counts both its record and the new one as dead; compacts
    /// the log if more than `COMPACTION_THRESHOLD` bytes are then dead.
    ///
    /// Fails with `KeyNotFound`, changing nothing, where the store holds no
    /// value for `key`; and with `Io` where the log is due for compaction and
    /// no two generations are left; the key is unbound all the same.
    pub fn remove(&mut self, key: String) -> (r: Result<(), KvsError>)
        requires
            old(self).wf(),
        ensures
            final(self).wf(),
            if old(self).contents().contains_key(key@) {
                &&& final(self).contents() == old(self).contents().remove(key@)
                &&& set_outcome(old(self)@, CommandView::Remove { key: key@ }, final(self)@, r)
            } else {
                &&& final(self)@ == old(self)@
                &&& r is Err
                &&& r->Err_0 is KeyNotFound
            },
    {
        let ghost c = CommandView::Remove { key: key@ };
        let ghost v0 = self@;
        proof {
            lemma_replay_valid(v0.dir);
        }
        if !index_contains_key(&self.index, key.as_str()) {
            return Err(KvsError::KeyNotFound);
        }
        let rec = encode_remove(key.as_str());
        let last: usize = self.dir.len() - 1;
        match self.dir.append(self.current_gen, rec.as_slice()) {
            Ok(()) => {},
            Err(e) => {
                proof {
                    assert(v0.dir[last as int].0 == self.current_gen);
                }
                return Err(e);
            },
        }
        let size: usize = self.dir.size_at(last);
        proof {
            let j = choose|j: int|
                0 <= j < v0.dir.len() && (#[trigger] v0.dir[j]).0 == self.current_gen && self.dir@
                    == v0.dir.update(j, (self.current_gen, v0.dir[j].1 + rec@));
            if j < last {
                assert(v0.dir[j].0 < v0.dir[last as int].0);
            }
            assert(self.dir@ == appended(v0.dir, rec@));
            lemma_after_command(v0, c);
        }
        if let Some(old_cmd) = index_remove(&mut self.index, key.as_str()) {
            self.uncompacted = saturating_count(self.uncompacted, old_cmd.len);
        }
        self.uncompacted = saturating_count(self.uncompacted, rec.len() as u64);
        proof {
            assert(self@.index =~= after_command(v0, c).index);
            assert(self@ == after_command(v0, c));
        }
        if self.uncompacted > COMPACTION_THRESHOLD {
            return self.compact();
        }
        Ok(())
    }
}

/// How a `set` or a `remove` that logs the command `c` ends. The record is
/// appended and the index follows. If no more than `COMPACTION_THRESHOLD`
/// bytes are then dead, that is all. Otherwise the log is compacted, or, where
/// no two generations are left for that, the call fails with `Io`.
pub open spec fn set_outcome(before: StoreView, c: CommandView, after: StoreView, r: Result<(), KvsError>) -> bool {
    let mid = after_command(before, c);
    &&& can_log(before, c)
    &&& if mid.uncompacted <= COMPACTION_THRESHOLD {
        r is Ok && after == mid
    } else if before.current_gen > u64::MAX - 2 {
        r is Err && r->Err_0 is Io && after == mid
    } else {
        r is Ok && compacted(mid, after)
    }
}

/// Whether the record of `c` can be appended to the log of `v`: it reads back
/// as `c`, and the segment written to stays within the size that a position
/// can hold.
pub open spec fn can_log(v: StoreView, c: CommandView) -> bool {
    &&& reads_as(record_bytes(c), c)
    &&& v.dir.last().1.len() + record_bytes(c).len() <= u64::MAX
}

/// A store whose log is the compaction segment and an empty segment after it
/// is the store it was compacted from, compacted.
proof fn lemma_compaction_done(v0: StoreView, v1: StoreView, copied: Seq<u8>, entries: Seq<(String, CommandPos)>)
    requires
        store_ok(v0),
        lists(entries, v0.index),
        copied == chunks_of(v0.dir, entries),
        v0.current_gen <= u64::MAX - 2,
        v1.current_gen == v0.current_gen + 2,
        v1.safe_point == v0.current_gen + 1,
        v1.uncompacted == 0,
        v1.dir == seq![(v1.safe_point, copied), (v1.current_gen, Seq::<u8>::empty())],
        log_ok(copied),
        copied.len() <= u64::MAX,
        v1.index == replay_log(empty_state(), v1.safe_point, copied, 0).index,
        replay_log(empty_state(), v1.safe_point, copied, 0).values == replay_dir(v0.dir).values,
        replay_log(empty_state(), v1.safe_point, copied, 0).dead == 0,
        forall|k: Seq<char>| #[trigger]
            v0.index.contains_key(k) ==> {
                &&& v1.index.contains_key(k)
                &&& v1.index[k].gen == v1.safe_point
                &&& v1.index[k].len == v0.index[k].len
            },
        forall|k: Seq<char>| #[trigger] v1.index.contains_key(k) ==> v0.index.contains_key(k),
    ensures
        compacted(v0, v1),
{
    let d = v1.dir;
    let one = seq![(v1.safe_point, copied)];
    assert(d.drop_last() =~= one);
    assert(one.drop_last() =~= Seq::<(u64, Seq<u8>)>::empty());
    assert(replay_dir(one.drop_last()) == empty_state());
    assert(replay_dir(one) == replay_log(empty_state(), v1.safe_point, copied, 0));
    assert(replay_dir(d) == replay_dir(one));
    assert(dir_ok(d));
    assert(sizes_fit(d));
    assert(ascending(d));
    assert(lists(entries, v0.index) && v1.dir[0].1 == chunks_of(v0.dir, entries));
}

} // verus!
