//! The two passes of compaction over the log: copying the live records into
//! the compaction segment, and dropping the segments that the copy makes
//! superfluous.

use vstd::prelude::*;
use crossbeam_skiplist::SkipMap;
use crate::command::{reads_as, CommandView};
use crate::error::KvsError;
use crate::index::{index_entries, index_insert, lemma_str_lt_irreflexive, str_lt, CommandPos};
use crate::logdir::{ascending, gens_of, has_gen, lemma_rank, rank, read_range, LogDir};
use crate::reader::{bytes_of, lemma_bytes_of, KvsStoreReader};
use crate::replay::{
    apply, empty_state, entry_valid, lemma_replay_split, lemma_single_record, log_ok,
    replay_log, state_valid, ReplayState,
};

verus! {

/// Deletes every segment of a generation below `bound`.
pub fn remove_stale(dir: &mut LogDir, bound: u64)
    requires
        old(dir).wf(),
    ensures
        final(dir).wf(),
        final(dir)@ == old(dir)@.skip(rank(old(dir)@, bound)),
{
    let ghost before = dir@;
    let ghost r = rank(before, bound);
    proof {
        lemma_rank(before, bound);
    }
    let gens = dir.generations();
    let mut i: usize = 0;
    assert(before.skip(0) =~= before);
    while i < gens.len()
        invariant
            i <= gens@.len(),
            gens@ == gens_of(before),
            ascending(before),
            r == rank(before, bound),
            0 <= r <= before.len(),
            forall|j: int| 0 <= j < r ==> (#[trigger] before[j]).0 < bound,
            forall|j: int| r <= j < before.len() ==> (#[trigger] before[j]).0 >= bound,
            dir.wf(),
            dir@ == before.skip(if i <= r { i as int } else { r }),
        decreases gens@.len() - i,
    {
        let gen = gens[i];
        assert(gen == before[i as int].0);
        if gen < bound {
            assert(i < r);
            let ghost current = dir@;
            assert(current[0] == before[i as int]);
            let removed = dir.remove(gen);
            proof {
                assert(has_gen(current, gen));
                let j = choose|j: int|
                    0 <= j < current.len() && (#[trigger] current[j]).0 == gen && dir@
                        == current.remove(j);
                if j > 0 {
                    assert(current[0].0 < current[j].0);
                }
                assert(current.remove(0) =~= before.skip(i + 1));
            }
        } else {
            assert(i >= r);
        }
        i += 1;
    }
}

/// The directory `d` is the segments of `d0`, then the compaction segment
/// `gen` holding `copied`, then an empty segment.
pub open spec fn compacting(d: Seq<(u64, Seq<u8>)>, d0: Seq<(u64, Seq<u8>)>, gen: u64, copied: Seq<u8>) -> bool {
    &&& d.len() == d0.len() + 2
    &&& forall|j: int| 0 <= j < d0.len() ==> #[trigger] d[j] == d0[j]
    &&& d[d0.len() as int] == (gen, copied)
    &&& d[(d0.len() + 1) as int].1 == Seq::<u8>::empty()
}

/// Whether `entries` lists the entries of `index`, each once, in ascending
/// order of the keys.
pub open spec fn lists(entries: Seq<(String, CommandPos)>, index: Map<Seq<char>, CommandPos>) -> bool {
    &&& forall|i: int, j: int|
        0 <= i < j < entries.len() ==> str_lt(#[trigger] entries[i].0@, #[trigger] entries[j].0@)
    &&& forall|i: int|
        0 <= i < entries.len() ==> index.contains_pair(#[trigger] entries[i].0@, entries[i].1)
    &&& forall|k: Seq<char>|
        index.contains_key(k) ==> exists|i: int|
            0 <= i < entries.len() && #[trigger] entries[i].0@ == k
}

/// Opens the two segments of a compaction after the segment `current_gen`,
/// the last of the directory: the compaction segment and, one generation
/// above it, the segment to write to from now on.
pub(crate) fn open_compaction_segments(dir: &mut LogDir, current_gen: u64)
    requires
        old(dir).wf(),
        old(dir)@.len() > 0,
        old(dir)@.last().0 == current_gen,
        current_gen <= u64::MAX - 2,
    ensures
        final(dir).wf(),
        final(dir)@ == old(dir)@.push(((current_gen + 1) as u64, Seq::empty())).push(
            ((current_gen + 2) as u64, Seq::empty()),
        ),
        compacting(
            final(dir)@,
            old(dir)@,
            (current_gen + 1) as u64,
            Seq::empty(),
        ),
{
    let ghost d0 = dir@;
    let compaction_gen: u64 = current_gen + 1;
    let active_gen: u64 = current_gen + 2;
    proof {
        lemma_rank(d0, active_gen);
        assert(!has_gen(d0, active_gen)) by {
            if has_gen(d0, active_gen) {
                let j = choose|j: int| 0 <= j < d0.len() && (#[trigger] d0[j]).0 == active_gen;
                if j < d0.len() - 1 {
                    assert(d0[j].0 < d0[d0.len() - 1].0);
                }
            }
        }
    }
    dir.create(active_gen);
    let ghost d1 = dir@;
    proof {
        assert(d1 =~= d0.push((active_gen, Seq::empty())));
        lemma_rank(d1, compaction_gen);
        assert(!has_gen(d1, compaction_gen)) by {
            if has_gen(d1, compaction_gen) {
                let j = choose|j: int| 0 <= j < d1.len() && (#[trigger] d1[j]).0 == compaction_gen;
                if j < d0.len() - 1 {
                    assert(d0[j].0 < d0[d0.len() - 1].0);
                }
            }
        }
        assert(rank(d1, compaction_gen) == d0.len()) by {
            assert(d1.drop_last() =~= d0);
        }
    }
    dir.create(compaction_gen);
    assert(dir@ =~= d0.push((compaction_gen, Seq::empty())).push((active_gen, Seq::empty())));
}

/// Deletes the segments that a compaction into the segment `gen` has made
/// superfluous: all that come before it.
pub(crate) fn retire_segments(
    dir: &mut LogDir,
    gen: u64,
    Ghost(d0): Ghost<Seq<(u64, Seq<u8>)>>,
    Ghost(copied): Ghost<Seq<u8>>,
)
    requires
        old(dir).wf(),
        compacting(old(dir)@, d0, gen, copied),
    ensures
        final(dir).wf(),
        final(dir)@ == seq![(gen, copied), old(dir)@.last()],
{
    let ghost d3 = dir@;
    proof {
        lemma_rank(d3, gen);
        assert(d3[d0.len() as int].0 == gen);
        assert(rank(d3, gen) == d0.len()) by {
            let r = rank(d3, gen);
            if r < d0.len() {
                assert(d3[r].0 < d3[d0.len() as int].0);
            }
            if r > d0.len() {
                assert(d3[d0.len() as int].0 < gen);
            }
        }
    }
    remove_stale(dir, gen);
    assert(dir@ =~= seq![(gen, copied), d3.last()]);
}

/// The bytes of the record that lies at `p` in `d`.
pub open spec fn slice_at(d: Seq<(u64, Seq<u8>)>, p: CommandPos) -> Seq<u8> {
    read_range(bytes_of(d, p.gen), p.pos, p.len)
}

/// The records that `entries` point at in `d`, one after the other in the
/// order of `entries`.
pub open spec fn chunks_of(d: Seq<(u64, Seq<u8>)>, entries: Seq<(String, CommandPos)>) -> Seq<u8>
    decreases entries.len(),
{
    if entries.len() == 0 {
        Seq::empty()
    } else {
        chunks_of(d, entries.drop_last()) + slice_at(d, entries.last().1)
    }
}

/// What the copy has done after the first `n` of `entries`: the state `cs`
/// that a replay of the compaction segment gives holds those keys, each with
/// its value and the length of its record as in `s0`, and nothing dead.
pub open spec fn copied_state(cs: ReplayState, s0: ReplayState, entries: Seq<(String, CommandPos)>, n: int, gen: u64) -> bool {
    &&& cs.dead == 0
    &&& forall|k: Seq<char>| #[trigger]
        cs.index.contains_key(k) <==> exists|j: int| 0 <= j < n && #[trigger] entries[j].0@ == k
    &&& forall|k: Seq<char>| #[trigger] cs.index.contains_key(k) <==> cs.values.contains_key(k)
    &&& forall|k: Seq<char>| #[trigger]
        cs.index.contains_key(k) ==> {
            &&& s0.index.contains_key(k)
            &&& cs.values[k] == s0.values[k]
            &&& cs.index[k].gen == gen
            &&& cs.index[k].len == s0.index[k].len
        }
}

/// The index while the copy runs: the keys of `s0`, those already copied
/// with their new position.
pub open spec fn repointed(index: Map<Seq<char>, CommandPos>, cs: ReplayState, s0: ReplayState) -> bool {
    &&& forall|k: Seq<char>| #[trigger] index.contains_key(k) <==> s0.index.contains_key(k)
    &&& forall|k: Seq<char>| #[trigger]
        index.contains_key(k) ==> index[k] == if cs.index.contains_key(k) {
            cs.index[k]
        } else {
            s0.index[k]
        }
}

/// Copies the record of every entry of `entries` into the segment `gen` and
/// points the index at the copy. The bytes are copied as they are.
pub(crate) fn copy_live(
    dir: &mut LogDir,
    index: &mut SkipMap<String, CommandPos>,
    reader: &mut KvsStoreReader,
    entries: &Vec<(String, CommandPos)>,
    gen: u64,
    Ghost(d0): Ghost<Seq<(u64, Seq<u8>)>>,
    Ghost(s0): Ghost<ReplayState>,
) -> (r: (Result<(), KvsError>, Ghost<Seq<u8>>))
    requires
        old(dir).wf(),
        old(reader).wf(),
        compacting(old(dir)@, d0, gen, Seq::empty()),
        ascending(d0),
        state_valid(d0, s0),
        index_entries(*old(index)) == s0.index,
        lists(entries@, s0.index),
    ensures
        final(dir).wf(),
        final(reader).wf(),
        final(reader).safe_point_view() == old(reader).safe_point_view(),
        r.0 is Ok,
        final(dir)@.len() == old(dir)@.len(),
        final(dir)@[final(dir)@.len() - 1] == old(dir)@[old(dir)@.len() - 1],
        compacting(final(dir)@, d0, gen, r.1@),
        r.1@ == chunks_of(d0, entries@),
        log_ok(r.1@),
        r.1@.len() <= u64::MAX,
        index_entries(*final(index)) == replay_log(empty_state(), gen, r.1@, 0).index,
        replay_log(empty_state(), gen, r.1@, 0).values == s0.values,
        replay_log(empty_state(), gen, r.1@, 0).dead == 0,
        forall|k: Seq<char>| #[trigger]
            s0.index.contains_key(k) ==> {
                &&& index_entries(*final(index)).contains_key(k)
                &&& index_entries(*final(index))[k].gen == gen
                &&& index_entries(*final(index))[k].len == s0.index[k].len
            },
        forall|k: Seq<char>| #[trigger]
            index_entries(*final(index)).contains_key(k) ==> s0.index.contains_key(k),
{
    let ghost mut copied: Seq<u8> = Seq::empty();
    let ghost mut cs = empty_state();
    let ghost last = dir@[dir@.len() - 1];
    let slot: usize = dir.len() - 2;
    let mut new_pos: u64 = 0;
    let mut i: usize = 0;
    assert(entries@.take(0) =~= Seq::<(String, CommandPos)>::empty());
    while i < entries.len()
        invariant
            i <= entries@.len(),
            dir.wf(),
            reader.wf(),
            reader.safe_point_view() == old(reader).safe_point_view(),
            slot == d0.len(),
            dir@.len() == d0.len() + 2,
            dir@[dir@.len() - 1] == last,
            compacting(dir@, d0, gen, copied),
            ascending(d0),
            copied == chunks_of(d0, entries@.take(i as int)),
            state_valid(d0, s0),
            lists(entries@, s0.index),
            log_ok(copied),
            new_pos == copied.len(),
            cs == replay_log(empty_state(), gen, copied, 0),
            copied_state(cs, s0, entries@, i as int, gen),
            repointed(index_entries(*index), cs, s0),
        decreases entries@.len() - i,
    {
        let key = entries[i].0.clone();
        let cmd_pos = entries[i].1;
        let ghost k = key@;
        let ghost v = s0.values[k];
        let ghost before = dir@;
        assert(s0.index.contains_pair(entries@[i as int].0@, entries@[i as int].1));
        assert(s0.index.contains_key(k) && s0.index[k] == cmd_pos);
        assert(entry_valid(d0, k, cmd_pos, v));
        let ghost at = choose|j: int|
            0 <= j < d0.len() && (#[trigger] d0[j]).0 == cmd_pos.gen && cmd_pos.len > 0
                && cmd_pos.pos + cmd_pos.len <= d0[j].1.len() && reads_as(
                d0[j].1.subrange(cmd_pos.pos as int, cmd_pos.pos + cmd_pos.len),
                CommandView::Put { key: k, value: v },
            );
        let ghost chunk = d0[at].1.subrange(cmd_pos.pos as int, cmd_pos.pos + cmd_pos.len);
        proof {
            assert(before[at] == d0[at]);
            lemma_bytes_of(before, at);
            lemma_bytes_of(d0, at);
            assert(has_gen(before, cmd_pos.gen));
            assert(read_range(d0[at].1, cmd_pos.pos, cmd_pos.len) == chunk);
            assert(slice_at(d0, cmd_pos) == chunk);
            let part = entries@.take(i + 1);
            assert(part.drop_last() =~= entries@.take(i as int));
            assert(part.last() == entries@[i as int]);
        }
        let bytes = match reader.read_and(dir, cmd_pos) {
            Ok(bytes) => bytes,
            Err(e) => {
                return (Err(e), Ghost(copied));
            },
        };
        assert(bytes@ == chunk);
        let len: usize = bytes.len();
        match dir.append(gen, bytes.as_slice()) {
            Ok(()) => {},
            Err(e) => {
                proof {
                    assert(before[slot as int].0 == gen);
                }
                return (Err(e), Ghost(copied));
            },
        }
        proof {
            let j = choose|j: int|
                0 <= j < before.len() && (#[trigger] before[j]).0 == gen && dir@ == before.update(
                    j,
                    (gen, before[j].1 + bytes@),
                );
            assert(before[slot as int].0 == gen);
            if j < slot {
                assert(before[j].0 < before[slot as int].0);
            } else if j > slot {
                assert(before[slot as int].0 < before[j].0);
            }
            assert(j == slot);
        }
        let size = dir.size_at(slot);
        proof {
            lemma_single_record(cs, gen, chunk, CommandView::Put { key: k, value: v }, copied.len());
            lemma_replay_split(empty_state(), gen, copied, chunk, 0);
        }
        let ghost cs_before = cs;
        let ghost index_before = index_entries(*index);
        index_insert(index, key, CommandPos { gen, pos: new_pos, len: len as u64 });
        proof {
            cs = apply(cs, gen, CommandView::Put { key: k, value: v }, copied.len(), chunk.len());
            copied = copied + chunk;
            // The key was not copied before: keys are listed once.
            assert(!cs_before.index.contains_key(k)) by {
                if cs_before.index.contains_key(k) {
                    let j = choose|j: int| 0 <= j < i && #[trigger] entries@[j].0@ == k;
                    assert(str_lt(entries@[j].0@, entries@[i as int].0@));
                    lemma_str_lt_irreflexive(k);
                }
            }
            assert(cs.dead == 0);
            assert forall|q: Seq<char>| #[trigger]
                cs.index.contains_key(q) <==> exists|j: int|
                    0 <= j < i + 1 && #[trigger] entries@[j].0@ == q by {
                if cs.index.contains_key(q) {
                    if q == k {
                        assert(entries@[i as int].0@ == q);
                    } else {
                        assert(cs_before.index.contains_key(q));
                        let j = choose|j: int| 0 <= j < i && #[trigger] entries@[j].0@ == q;
                        assert(0 <= j < i + 1 && entries@[j].0@ == q);
                    }
                }
                if exists|j: int| 0 <= j < i + 1 && #[trigger] entries@[j].0@ == q {
                    let j = choose|j: int| 0 <= j < i + 1 && #[trigger] entries@[j].0@ == q;
                    if j < i {
                        assert(cs_before.index.contains_key(q));
                    }
                }
            }
            assert forall|q: Seq<char>| #[trigger] cs.index.contains_key(q) implies {
                &&& s0.index.contains_key(q)
                &&& cs.values[q] == s0.values[q]
                &&& cs.index[q].gen == gen
                &&& cs.index[q].len == s0.index[q].len
            } by {
                if q != k {
                    assert(cs_before.index.contains_key(q));
                }
            }
            assert forall|q: Seq<char>| #[trigger]
                cs.index.contains_key(q) <==> cs.values.contains_key(q) by {
                if q != k {
                    assert(cs_before.index.contains_key(q) <==> cs_before.values.contains_key(q));
                }
            }
            assert(copied_state(cs, s0, entries@, i + 1, gen));
            assert forall|q: Seq<char>| #[trigger]
                index_entries(*index).contains_key(q) <==> s0.index.contains_key(q) by {
                if q != k {
                    assert(index_before.contains_key(q) <==> s0.index.contains_key(q));
                }
            }
            assert forall|q: Seq<char>| #[trigger]
                index_entries(*index).contains_key(q) implies index_entries(*index)[q] == if cs.index.contains_key(
                q,
            ) {
                cs.index[q]
            } else {
                s0.index[q]
            } by {
                if q != k {
                    assert(index_before.contains_key(q));
                }
            }
            assert(compacting(dir@, d0, gen, copied)) by {
                assert forall|j: int| 0 <= j < d0.len() implies #[trigger] dir@[j] == d0[j] by {
                    assert(before[j] == d0[j]);
                }
            }
        }
        new_pos = new_pos + len as u64;
        i += 1;
    }
    proof {
        assert forall|k: Seq<char>| #[trigger] s0.index.contains_key(k) implies cs.index.contains_key(
            k,
        ) by {
            let j = choose|j: int| 0 <= j < entries@.len() && #[trigger] entries@[j].0@ == k;
            assert(0 <= j < i && entries@[j].0@ == k);
        }
        assert(index_entries(*index) =~= cs.index);
        assert forall|k: Seq<char>| #[trigger]
            cs.values.contains_key(k) <==> s0.values.contains_key(k) by {
            assert(cs.index.contains_key(k) <==> cs.values.contains_key(k));
            assert(s0.index.contains_key(k) <==> s0.values.contains_key(k));
            assert(cs.index.contains_key(k) ==> s0.index.contains_key(k));
        }
        assert forall|k: Seq<char>| #[trigger] cs.values.contains_key(k) implies cs.values[k]
            == s0.values[k] by {
            assert(cs.index.contains_key(k));
        }
        assert(cs.values.dom() =~= s0.values.dom());
        assert(cs.values =~= s0.values);
        assert(entries@.take(i as int) =~= entries@);
    }
    (Ok(()), Ghost(copied))
}

} // verus!
