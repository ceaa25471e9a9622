//! What holds of the store, whatever is done with it.
//!
//! Each law is stated over the views and spec functions that the contracts of
//! the store's operations use, and proved from them.

use vstd::prelude::*;
use crate::command::{reads_as, CommandView};
use crate::error::KvsError;
use crate::protocol::{RequestView, ResponseView};
use crate::replay::{dir_ok, entry_valid, lemma_replay_valid, replay_dir, sizes_fit};
use crate::server::answers;
use crate::store::{
    after_command, contents_of, lemma_after_command, lemma_replay_push_empty, next_gen, opened,
    set_outcome, store_ok, StoreView, COMPACTION_THRESHOLD,
};

verus! {

/// What `get` returns for `key` on a store that holds `contents`.
pub open spec fn lookup(contents: Map<Seq<char>, Seq<char>>, key: Seq<char>) -> Option<Seq<char>> {
    if contents.contains_key(key) {
        Some(contents[key])
    } else {
        None
    }
}

/// After a `set`, a `get` of the same key returns the value that was set, and
/// a `get` of any other key returns what it returned before. This holds
/// whether or not the `set` compacted the log, and also where it failed for
/// want of generations.
pub proof fn law_get_after_set(before: StoreView, key: Seq<char>, value: Seq<char>, after: StoreView, r: Result<(), KvsError>)
    requires
        store_ok(before),
        set_outcome(before, CommandView::Put { key, value }, after, r),
    ensures
        store_ok(after),
        contents_of(after) == contents_of(before).insert(key, value),
        lookup(contents_of(after), key) == Some(value),
        forall|other: Seq<char>|
            other != key ==> lookup(contents_of(after), other) == lookup(
                contents_of(before),
                other,
            ),
{
    lemma_after_command(before, CommandView::Put { key, value });
}

/// After a `remove` of a key that the store held, a `get` of that key returns
/// nothing, and a `get` of any other key returns what it returned before.
pub proof fn law_get_after_remove(before: StoreView, key: Seq<char>, after: StoreView, r: Result<(), KvsError>)
    requires
        store_ok(before),
        set_outcome(before, CommandView::Remove { key }, after, r),
    ensures
        store_ok(after),
        contents_of(after) == contents_of(before).remove(key),
        lookup(contents_of(after), key) is None,
        forall|other: Seq<char>|
            other != key ==> lookup(contents_of(after), other) == lookup(
                contents_of(before),
                other,
            ),
{
    lemma_after_command(before, CommandView::Remove { key });
}

/// Opening a store on the log of a store gives that store again: the same
/// contents, the same index and the same count of dead bytes. Nothing that a
/// store has logged is lost by closing and reopening it.
pub proof fn law_reopen(v: StoreView)
    requires
        store_ok(v),
        v.current_gen < u64::MAX,
    ensures
        dir_ok(v.dir),
        next_gen(v.dir) <= u64::MAX,
        store_ok(opened(v.dir)),
        contents_of(opened(v.dir)) == contents_of(v),
        opened(v.dir).index == v.index,
        opened(v.dir).uncompacted == v.uncompacted,
{
    let w = opened(v.dir);
    lemma_replay_push_empty(v.dir, next_gen(v.dir) as u64);
    assert forall|i: int, j: int| 0 <= i < j < w.dir.len() implies (#[trigger] w.dir[i]).0 < (
    #[trigger] w.dir[j]).0 by {
        if j < v.dir.len() {
            assert(w.dir[i] == v.dir[i]);
            assert(w.dir[j] == v.dir[j]);
        } else {
            assert(w.dir[i] == v.dir[i]);
            if i < v.dir.len() - 1 {
                assert(v.dir[i].0 < v.dir[v.dir.len() - 1].0);
            }
        }
    }
    assert(dir_ok(w.dir)) by {
        assert forall|i: int| 0 <= i < w.dir.len() implies crate::replay::log_ok(
            (#[trigger] w.dir[i]).1,
        ) by {
            if i < v.dir.len() {
                assert(w.dir[i] == v.dir[i]);
            }
        }
    }
    assert(sizes_fit(w.dir)) by {
        assert forall|i: int| 0 <= i < w.dir.len() implies (#[trigger] w.dir[i]).1.len()
            <= u64::MAX by {
            if i < v.dir.len() {
                assert(w.dir[i] == v.dir[i]);
            }
        }
    }
}

/// After a `set` or `remove` that succeeded, no more than
/// `COMPACTION_THRESHOLD` bytes of the log are dead; after one that compacted
/// the log, none is.
pub proof fn law_dead_bytes_bounded(before: StoreView, c: CommandView, after: StoreView, r: Result<(), KvsError>)
    requires
        set_outcome(before, c, after, r),
        r is Ok,
    ensures
        after.uncompacted <= COMPACTION_THRESHOLD,
        after_command(before, c).uncompacted > COMPACTION_THRESHOLD ==> replay_dir(after.dir).dead
            == 0,
{
}

/// In a store, every index entry points at a `Put` record of its key that
/// lies within a segment of the log, and that record holds the key's value;
/// the store has a value for exactly the keys that the index holds; and no
/// entry points below the safe point.
pub proof fn law_index_points_at_records(v: StoreView)
    requires
        store_ok(v),
    ensures
        forall|k: Seq<char>| #[trigger] v.index.contains_key(k) <==> contents_of(v).contains_key(k),
        forall|k: Seq<char>| #[trigger]
            v.index.contains_key(k) ==> entry_valid(v.dir, k, v.index[k], contents_of(v)[k])
                && v.index[k].gen >= v.safe_point,
{
    lemma_replay_valid(v.dir);
    assert forall|k: Seq<char>| #[trigger] v.index.contains_key(k) implies v.index[k].gen
        >= v.safe_point by {
        let p = v.index[k];
        let val = contents_of(v)[k];
        assert(entry_valid(v.dir, k, p, val));
        let i = choose|i: int|
            0 <= i < v.dir.len() && (#[trigger] v.dir[i]).0 == p.gen && p.len > 0 && p.pos + p.len
                <= v.dir[i].1.len() && reads_as(
                v.dir[i].1.subrange(p.pos as int, p.pos + p.len),
                CommandView::Put { key: k, value: val },
            );
        assert(v.dir[i].0 >= v.safe_point);
    }
}

/// In a store, no two segments share a generation, and the segment written
/// to has the greatest.
pub proof fn law_active_segment_is_last(v: StoreView)
    requires
        store_ok(v),
    ensures
        forall|i: int, j: int|
            0 <= i < j < v.dir.len() ==> (#[trigger] v.dir[i]).0 != (#[trigger] v.dir[j]).0,
        forall|i: int| 0 <= i < v.dir.len() - 1 ==> (#[trigger] v.dir[i]).0 < v.current_gen,
{
    assert forall|i: int| 0 <= i < v.dir.len() - 1 implies (#[trigger] v.dir[i]).0
        < v.current_gen by {
        assert(v.dir[i].0 < v.dir[v.dir.len() - 1].0);
    }
}

/// On the wire, too, a `get` that follows a `set` of the same key and does
/// not fail is answered with the value that was set: whether the two requests
/// come over one connection or over two, the engine they reach is the same.
pub proof fn law_answer_after_set(
    m0: Map<Seq<char>, Seq<char>>,
    key: Seq<char>,
    value: Seq<char>,
    m1: Map<Seq<char>, Seq<char>>,
    resp: ResponseView,
    m2: Map<Seq<char>, Seq<char>>,
)
    requires
        answers(m0, RequestView::Put { key, value }, ResponseView::Nothing, m1),
        answers(m1, RequestView::Get { key }, resp, m2),
        !(resp is Failure),
    ensures
        resp == ResponseView::Value(value),
        m2 == m1,
{
}

/// On the wire, a `get` that follows a `remove` of the same key and does not
/// fail is answered with nothing.
pub proof fn law_answer_after_remove(
    m0: Map<Seq<char>, Seq<char>>,
    key: Seq<char>,
    m1: Map<Seq<char>, Seq<char>>,
    resp: ResponseView,
    m2: Map<Seq<char>, Seq<char>>,
)
    requires
        answers(m0, RequestView::Remove { key }, ResponseView::Nothing, m1),
        answers(m1, RequestView::Get { key }, resp, m2),
        !(resp is Failure),
    ensures
        resp == ResponseView::Nothing,
        m2 == m1,
{
}

} // verus!
