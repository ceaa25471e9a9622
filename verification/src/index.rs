//! The in-memory index: where in the log the live record of each key lies.
//!
//! The index is a `crossbeam_skiplist::SkipMap`, an ordered map that many
//! threads may read while one writes. The store reaches it only through the
//! functions of this module, whose contracts say what each call does to the
//! map's contents.

use vstd::prelude::*;
use vstd::std_specs::convert::FromSpecImpl;
use core::ops::Range;
use crossbeam_skiplist::SkipMap;

verus! {

/// Where one record lies: the segment, the offset of its first byte and the
/// number of bytes it spans.
#[derive(Debug, Clone, Copy, PartialEq, Eq, Structural)]
pub struct CommandPos {
    pub gen: u64,
    pub pos: u64,
    pub len: u64,
}

impl From<(u64, Range<u64>)> for CommandPos {
    /// The position of a record of segment `gen` that spans the bytes of
    /// `range`. An empty or inverted range gives a record of no bytes.
    fn from(value: (u64, Range<u64>)) -> (r: Self) {
        let (gen, range) = value;
        let len: u64 = if range.end >= range.start {
            range.end - range.start
        } else {
            0
        };
        CommandPos { gen, pos: range.start, len }
    }
}

impl FromSpecImpl<(u64, Range<u64>)> for CommandPos {
    open spec fn obeys_from_spec() -> bool {
        true
    }

    open spec fn from_spec(v: (u64, Range<u64>)) -> Self {
        CommandPos {
            gen: v.0,
            pos: v.1.start,
            len: if v.1.end >= v.1.start {
                (v.1.end - v.1.start) as u64
            } else {
                0
            },
        }
    }
}

/// `crossbeam_skiplist::SkipMap`; what a map holds is named by
/// `index_entries`.
#[verifier::external_type_specification]
#[verifier::external_body]
#[verifier::reject_recursive_types(K)]
#[verifier::reject_recursive_types(V)]
pub struct ExSkipMap<K, V>(SkipMap<K, V>);

/// The entries that an index holds: each key with the position of its record.
pub uninterp spec fn index_entries(index: SkipMap<String, CommandPos>) -> Map<Seq<char>, CommandPos>;

/// Whether `a` comes before `b` in the order of `String`: character by
/// character, a proper prefix first.
pub open spec fn str_lt(a: Seq<char>, b: Seq<char>) -> bool
    decreases a.len(),
{
    if b.len() == 0 {
        false
    } else if a.len() == 0 {
        true
    } else if a[0] != b[0] {
        (a[0] as u32) < (b[0] as u32)
    } else {
        str_lt(a.skip(1), b.skip(1))
    }
}

/// No string comes before itself.
pub proof fn lemma_str_lt_irreflexive(a: Seq<char>)
    ensures
        !str_lt(a, a),
    decreases a.len(),
{
    if a.len() > 0 {
        lemma_str_lt_irreflexive(a.skip(1));
    }
}

/// Calls `SkipMap::new`: the new map holds nothing.
#[verifier::external_body]
pub(crate) fn index_new() -> (index: SkipMap<String, CommandPos>)
    ensures
        forall|k: Seq<char>| !(#[trigger] index_entries(index).contains_key(k)),
{
    SkipMap::new()
}

/// Calls `SkipMap::get` and copies the value out of the entry: the position
/// stored under `key`, if there is one.
#[verifier::external_body]
pub(crate) fn index_get(index: &SkipMap<String, CommandPos>, key: &str) -> (r: Option<CommandPos>)
    ensures
        r == if index_entries(*index).contains_key(key@) {
            Some(index_entries(*index)[key@])
        } else {
            None
        },
{
    index.get(key).map(|entry| *entry.value())
}

/// Calls `SkipMap::contains_key`.
#[verifier::external_body]
pub(crate) fn index_contains_key(index: &SkipMap<String, CommandPos>, key: &str) -> (r: bool)
    ensures
        r == index_entries(*index).contains_key(key@),
{
    index.contains_key(key)
}

/// Calls `SkipMap::insert`: afterwards `key` is bound to `pos`, an earlier
/// entry under `key` is gone, and every other entry is as before.
#[verifier::external_body]
pub(crate) fn index_insert(index: &mut SkipMap<String, CommandPos>, key: String, pos: CommandPos)
    ensures
        index_entries(*final(index)) == index_entries(*old(index)).insert(key@, pos),
{
    index.insert(key, pos);
}

/// Calls `SkipMap::remove` and copies the value out of the removed entry:
/// afterwards `key` is unbound and every other entry is as before; the result
/// is the position that was stored under `key`, if there was one.
#[verifier::external_body]
pub(crate) fn index_remove(index: &mut SkipMap<String, CommandPos>, key: &str) -> (r: Option<CommandPos>)
    ensures
        index_entries(*final(index)) == index_entries(*old(index)).remove(key@),
        r == if index_entries(*old(index)).contains_key(key@) {
            Some(index_entries(*old(index))[key@])
        } else {
            None
        },
{
    index.remove(key).map(|entry| *entry.value())
}

/// Walks the map with `SkipMap::iter` and copies each entry out: every entry
/// of the map once, in ascending order of the keys.
#[verifier::external_body]
pub(crate) fn index_list(index: &SkipMap<String, CommandPos>) -> (r: Vec<(String, CommandPos)>)
    ensures
        forall|i: int, j: int| 0 <= i < j < r@.len() ==> str_lt(#[trigger] r@[i].0@, #[trigger] r@[j].0@),
        forall|i: int| 0 <= i < r@.len() ==> index_entries(*index).contains_pair(#[trigger] r@[i].0@, r@[i].1),
        forall|k: Seq<char>| index_entries(*index).contains_key(k) ==> exists|i: int| 0 <= i < r@.len() && #[trigger] r@[i].0@ == k,
{
    index.iter().map(|entry| (entry.key().clone(), *entry.value())).collect()
}

} // verus!
