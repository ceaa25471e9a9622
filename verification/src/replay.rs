//! Replay: what a log means.
//!
//! The meaning of a log is what reading its records in order leaves behind:
//! for each live key the position of its last `Put` record and the value that
//! record holds, and the number of bytes taken up by records that no longer
//! matter. The store's index is this meaning, kept up to date while the log
//! grows; rebuilding it from the log gives the same.

use vstd::prelude::*;
use vstd::slice::slice_subrange;
use crossbeam_skiplist::SkipMap;
use crate::command::{read_command, read_record, reads_as, lemma_reads_alone, Command, CommandView};
use crate::error::KvsError;
use crate::index::{index_entries, index_get, index_insert, index_remove, CommandPos};

verus! {

/// The state in which a replay into the index `index` starts: no dead bytes
/// counted yet.
pub open spec fn load_start(index: Map<Seq<char>, CommandPos>) -> ReplayState {
    ReplayState { index, values: Map::empty(), dead: 0 }
}

/// What a replay has gathered.
pub struct ReplayState {
    /// For each live key, where its record lies.
    pub index: Map<Seq<char>, CommandPos>,
    /// For each live key, the value its record holds.
    pub values: Map<Seq<char>, Seq<char>>,
    /// The bytes of the records read so far that are superseded or removed.
    pub dead: nat,
}

/// The state before any record is read.
pub open spec fn empty_state() -> ReplayState {
    ReplayState { index: Map::empty(), values: Map::empty(), dead: 0 }
}

/// The length of the record that `index` holds for `key`, or 0 if it holds
/// none.
pub open spec fn displaced(index: Map<Seq<char>, CommandPos>, key: Seq<char>) -> nat {
    if index.contains_key(key) {
        index[key].len as nat
    } else {
        0
    }
}

/// The state after the record of `c`, which spans `len` bytes at offset `pos`
/// of segment `gen`. A `Put` binds its key to the record and makes an earlier
/// record of the key dead; a `Remove` unbinds its key and is dead itself, as is
/// the record it unbinds.
pub open spec fn apply(s: ReplayState, gen: u64, c: CommandView, pos: nat, len: nat) -> ReplayState {
    match c {
        CommandView::Put { key, value } => ReplayState {
            index: s.index.insert(key, CommandPos { gen, pos: pos as u64, len: len as u64 }),
            values: s.values.insert(key, value),
            dead: s.dead + displaced(s.index, key),
        },
        CommandView::Remove { key } => ReplayState {
            index: s.index.remove(key),
            values: s.values.remove(key),
            dead: s.dead + displaced(s.index, key) + len,
        },
    }
}

/// Whether `bytes` is a log: a run of records, each of which reads back as
/// its command whatever follows it.
pub open spec fn log_ok(bytes: Seq<u8>) -> bool
    decreases bytes.len(),
{
    if bytes.len() == 0 {
        true
    } else {
        match read_record(bytes) {
            Some((c, n)) => if 0 < n <= bytes.len() {
                reads_as(bytes.subrange(0, n as int), c) && log_ok(bytes.skip(n as int))
            } else {
                false
            },
            None => false,
        }
    }
}

/// The state after the records of `bytes`, the contents of segment `gen` from
/// offset `base` on, read in order from state `s`. Reading stops at the first
/// byte that begins no record.
pub open spec fn replay_log(s: ReplayState, gen: u64, bytes: Seq<u8>, base: nat) -> ReplayState
    decreases bytes.len(),
{
    if bytes.len() == 0 {
        s
    } else {
        match read_record(bytes) {
            Some((c, n)) => if 0 < n <= bytes.len() {
                replay_log(apply(s, gen, c, base, n), gen, bytes.skip(n as int), base + n)
            } else {
                s
            },
            None => s,
        }
    }
}

/// The state after the segments of `d`, replayed in order from the empty
/// state.
pub open spec fn replay_dir(d: Seq<(u64, Seq<u8>)>) -> ReplayState
    decreases d.len(),
{
    if d.len() == 0 {
        empty_state()
    } else {
        replay_log(replay_dir(d.drop_last()), d.last().0, d.last().1, 0)
    }
}

/// Whether every segment of `d` is a log.
pub open spec fn dir_ok(d: Seq<(u64, Seq<u8>)>) -> bool {
    forall|i: int| 0 <= i < d.len() ==> log_ok((#[trigger] d[i]).1)
}

/// A count of bytes as the store keeps it: exact up to `u64::MAX`, and
/// `u64::MAX` beyond.
pub open spec fn saturate(n: nat) -> u64 {
    if n > u64::MAX {
        u64::MAX
    } else {
        n as u64
    }
}

/// One record is a log, and replaying it applies its command.
pub proof fn lemma_single_record(s: ReplayState, gen: u64, chunk: Seq<u8>, c: CommandView, base: nat)
    requires
        reads_as(chunk, c),
        chunk.len() > 0,
    ensures
        log_ok(chunk),
        replay_log(s, gen, chunk, base) == apply(s, gen, c, base, chunk.len()),
{
    lemma_reads_alone(chunk, c);
    assert(chunk.subrange(0, chunk.len() as int) =~= chunk);
    let rest = chunk.skip(chunk.len() as int);
    assert(rest.len() == 0);
    assert(log_ok(rest));
    assert(replay_log(apply(s, gen, c, base, chunk.len()), gen, rest, base + chunk.len()) == apply(
        s,
        gen,
        c,
        base,
        chunk.len(),
    ));
}

/// Replaying a log and then what follows it is replaying the two as one, and
/// the two together are a log exactly if what follows is one.
pub proof fn lemma_replay_split(s: ReplayState, gen: u64, p: Seq<u8>, r: Seq<u8>, base: nat)
    requires
        log_ok(p),
    ensures
        replay_log(s, gen, p + r, base) == replay_log(
            replay_log(s, gen, p, base),
            gen,
            r,
            base + p.len(),
        ),
        log_ok(p + r) == log_ok(r),
    decreases p.len(),
{
    if p.len() == 0 {
        assert(p + r =~= r);
    } else {
        let (c, n) = read_record(p).unwrap();
        let chunk = p.subrange(0, n as int);
        let rest = p.skip(n as int) + r;
        assert(chunk + rest =~= p + r);
        assert(read_record(p + r) == Some((c, n)));
        assert((p + r).subrange(0, n as int) =~= chunk);
        assert((p + r).skip(n as int) =~= rest);
        lemma_replay_split(apply(s, gen, c, base, n), gen, p.skip(n as int), r, base + n);
    }
}

/// Whether every segment of `d` has a length that a record position can
/// hold.
pub open spec fn sizes_fit(d: Seq<(u64, Seq<u8>)>) -> bool {
    forall|i: int| 0 <= i < d.len() ==> (#[trigger] d[i]).1.len() <= u64::MAX
}

/// The index entry `p` of key `k` points at a `Put` record of `k` with value
/// `v`, which lies within a segment of `d`.
pub open spec fn entry_valid(d: Seq<(u64, Seq<u8>)>, k: Seq<char>, p: CommandPos, v: Seq<char>) -> bool {
    exists|i: int|
        0 <= i < d.len() && (#[trigger] d[i]).0 == p.gen && p.len > 0 && p.pos + p.len
            <= d[i].1.len() && reads_as(
            d[i].1.subrange(p.pos as int, p.pos + p.len),
            CommandView::Put { key: k, value: v },
        )
}

/// The state `s` has a value for exactly the keys it has an entry for, and
/// each entry points at the record that holds that value.
pub open spec fn state_valid(d: Seq<(u64, Seq<u8>)>, s: ReplayState) -> bool {
    &&& forall|k: Seq<char>| #[trigger] s.index.contains_key(k) <==> s.values.contains_key(k)
    &&& forall|k: Seq<char>| #[trigger]
        s.index.contains_key(k) ==> entry_valid(d, k, s.index[k], s.values[k])
}

/// The first record of a log that is not empty.
pub open spec fn read_front(bytes: Seq<u8>) -> (CommandView, nat) {
    read_record(bytes).unwrap()
}

/// Replaying the last segment of `d` from offset `base` keeps a state valid.
proof fn lemma_log_valid(d: Seq<(u64, Seq<u8>)>, s: ReplayState, base: nat)
    requires
        d.len() > 0,
        base <= d.last().1.len() <= u64::MAX,
        log_ok(d.last().1.skip(base as int)),
        state_valid(d, s),
    ensures
        state_valid(d, replay_log(s, d.last().0, d.last().1.skip(base as int), base)),
    decreases d.last().1.len() - base,
{
    let gen = d.last().0;
    let full = d.last().1;
    let bytes = full.skip(base as int);
    if bytes.len() > 0 {
        let (c, n) = read_front(bytes);
        let s1 = apply(s, gen, c, base, n);
        let p = CommandPos { gen, pos: base as u64, len: n as u64 };
        assert(full.subrange(base as int, (base + n) as int) =~= bytes.subrange(0, n as int));
        assert(state_valid(d, s1)) by {
            match c {
                CommandView::Put { key, value } => {
                    assert(d[d.len() - 1].0 == p.gen);
                    assert(entry_valid(d, key, p, value));
                    assert forall|k: Seq<char>| #[trigger]
                        s1.index.contains_key(k) implies entry_valid(
                        d,
                        k,
                        s1.index[k],
                        s1.values[k],
                    ) by {
                        if k != key {
                            assert(s.index.contains_key(k));
                        }
                    }
                },
                CommandView::Remove { key } => {
                    assert forall|k: Seq<char>| #[trigger]
                        s1.index.contains_key(k) implies entry_valid(
                        d,
                        k,
                        s1.index[k],
                        s1.values[k],
                    ) by {
                        assert(s.index.contains_key(k));
                    }
                },
            }
        }
        assert(bytes.skip(n as int) =~= full.skip((base + n) as int));
        lemma_log_valid(d, s1, base + n);
    }
}

/// In the state that a replay of a directory of logs gives, every index entry
/// points at the record that holds the key's value.
pub proof fn lemma_replay_valid(d: Seq<(u64, Seq<u8>)>)
    requires
        dir_ok(d),
        sizes_fit(d),
    ensures
        state_valid(d, replay_dir(d)),
    decreases d.len(),
{
    if d.len() > 0 {
        let prev = d.drop_last();
        assert forall|i: int| 0 <= i < prev.len() implies log_ok((#[trigger] prev[i]).1) by {
            assert(prev[i] == d[i]);
        }
        assert forall|i: int| 0 <= i < prev.len() implies (#[trigger] prev[i]).1.len()
            <= u64::MAX by {
            assert(prev[i] == d[i]);
        }
        lemma_replay_valid(prev);
        let sp = replay_dir(prev);
        assert(state_valid(d, sp)) by {
            assert forall|k: Seq<char>| #[trigger] sp.index.contains_key(k) implies entry_valid(
                d,
                k,
                sp.index[k],
                sp.values[k],
            ) by {
                let p = sp.index[k];
                let i = choose|i: int|
                    0 <= i < prev.len() && (#[trigger] prev[i]).0 == p.gen && p.len > 0 && p.pos
                        + p.len <= prev[i].1.len() && reads_as(
                        prev[i].1.subrange(p.pos as int, p.pos + p.len),
                        CommandView::Put { key: k, value: sp.values[k] },
                    );
                assert(d[i] == prev[i]);
            }
        }
        assert(d.last().1.skip(0) =~= d.last().1);
        assert(log_ok(d[d.len() - 1].1));
        assert(d[d.len() - 1].1.len() <= u64::MAX);
        lemma_log_valid(d, sp, 0);
    }
}

/// Adds to a saturating count.
pub fn saturating_count(count: u64, more: u64) -> (r: u64)
    ensures
        r == saturate((count + more) as nat),
{
    if more > u64::MAX - count {
        u64::MAX
    } else {
        count + more
    }
}

/// Applies to `index` and to the count of dead bytes the command `c`, whose
/// record spans `len` bytes at offset `pos` of segment `gen`. `s` is the state
/// that `index` and `dead` stand for.
fn apply_record(
    gen: u64,
    c: Command,
    pos: usize,
    len: usize,
    index: &mut SkipMap<String, CommandPos>,
    dead: u64,
    Ghost(s): Ghost<ReplayState>,
) -> (r: u64)
    requires
        index_entries(*old(index)) == s.index,
        dead == saturate(s.dead),
    ensures
        index_entries(*final(index)) == apply(s, gen, c@, pos as nat, len as nat).index,
        r == saturate(apply(s, gen, c@, pos as nat, len as nat).dead),
{
    let mut dead = dead;
    match c {
        Command::Put { key, value } => {
            if let Some(old_pos) = index_get(index, key.as_str()) {
                dead = saturating_count(dead, old_pos.len);
            }
            index_insert(index, key, CommandPos { gen, pos: pos as u64, len: len as u64 });
        },
        Command::Remove { key } => {
            if let Some(old_pos) = index_remove(index, key.as_str()) {
                dead = saturating_count(dead, old_pos.len);
            }
            dead = saturating_count(dead, len as u64);
        },
    }
    dead
}

/// Replays the segment `gen`, whose contents are `bytes`, into `index`, and
/// adds the bytes of its dead records to `uncompacted`. `s0` is the state that
/// `index` and `uncompacted` stand for.
pub(crate) fn load_from(
    gen: u64,
    bytes: &[u8],
    index: &mut SkipMap<String, CommandPos>,
    uncompacted: u64,
    Ghost(s0): Ghost<ReplayState>,
) -> (r: Result<u64, KvsError>)
    requires
        index_entries(*old(index)) == s0.index,
        uncompacted == saturate(s0.dead),
    ensures
        index_entries(*final(index)) == replay_log(s0, gen, bytes@, 0).index,
        match r {
            Ok(u) => log_ok(bytes@) && u == saturate(replay_log(s0, gen, bytes@, 0).dead),
            Err(e) => !log_ok(bytes@) && e is Serde,
        },
{
    let mut pos: usize = 0;
    let mut dead: u64 = uncompacted;
    let ghost mut s = s0;
    while pos < bytes.len()
        invariant
            pos <= bytes@.len(),
            log_ok(bytes@.subrange(0, pos as int)),
            s == replay_log(s0, gen, bytes@.subrange(0, pos as int), 0),
            index_entries(*index) == s.index,
            dead == saturate(s.dead),
        decreases bytes@.len() - pos,
    {
        let rest = slice_subrange(bytes, pos, bytes.len());
        let ghost done = bytes@.subrange(0, pos as int);
        match read_command(rest) {
            Ok((c, n)) => {
                proof {
                    let chunk = rest@.subrange(0, n as int);
                    lemma_single_record(s, gen, chunk, c@, pos as nat);
                    lemma_replay_split(s0, gen, done, chunk, 0);
                    assert(done + chunk =~= bytes@.subrange(0, pos + n));
                }
                dead = apply_record(gen, c, pos, n, index, dead, Ghost(s));
                proof {
                    s = apply(s, gen, c@, pos as nat, n as nat);
                }
                pos = pos + n;
            },
            Err(e) => {
                proof {
                    lemma_replay_split(s0, gen, done, rest@, 0);
                    assert(done + rest@ =~= bytes@);
                }
                return Err(e);
            },
        }
    }
    assert(bytes@.subrange(0, pos as int) =~= bytes@);
    Ok(dead)
}

/// Replays one segment into an index: reads the records of `bytes`, the
/// contents of segment `gen`, in order; binds the key of each `Put` to its
/// record and unbinds the key of each `Remove`. Returns the number of bytes of
/// the segment's records that are dead when its end is reached. Fails with
/// `Serde`, at the first byte that begins no record, exactly if `bytes` is not
/// a log; the index then holds what the records before that byte left.
pub fn load(gen: u64, bytes: &[u8], index: &mut SkipMap<String, CommandPos>) -> (r: Result<
    u64,
    KvsError,
>)
    ensures
        index_entries(*final(index)) == replay_log(
            load_start(index_entries(*old(index))),
            gen,
            bytes@,
            0,
        ).index,
        match r {
            Ok(u) => log_ok(bytes@) && u == saturate(
                replay_log(load_start(index_entries(*old(index))), gen, bytes@, 0).dead,
            ),
            Err(e) => !log_ok(bytes@) && e is Serde,
        },
{
    let ghost s0 = load_start(index_entries(*index));
    load_from(gen, bytes, index, 0, Ghost(s0))
}

} // verus!
