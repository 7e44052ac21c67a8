//! What holds of readings, baselines and marks, entry by entry.

use super::{
    law_mark_counts_the_list, lemma_recorded_from, lemma_steady_head, lemma_steady_reading, steady,
};
use crate::order::before;
use crate::repo::{
    after_mark, changed_set, current_map, entry_map, entry_texts, hash_now, lists, marked_map,
    moved, read_paths, reads, recorded, Read, Reading,
};
use vstd::prelude::*;

verus! {

/// Readings and entries are taken as they are, one by one.
pub proof fn law_views(readings: Seq<Reading>, entries: Seq<(String, String)>)
    ensures
        reads(readings).len() == readings.len(),
        read_paths(reads(readings)).len() == readings.len(),
        forall|i: int|
            0 <= i < readings.len() ==> {
                &&& (#[trigger] reads(readings)[i]).0 == readings[i].path@
                &&& reads(readings)[i].1 is Some <==> readings[i].hash is Some
                &&& readings[i].hash is Some ==> reads(readings)[i].1->0 == readings[i].hash->0@
            },
        forall|i: int|
            0 <= i < readings.len() ==> #[trigger] read_paths(reads(readings))[i]
                == readings[i].path@,
        entry_texts(entries).len() == entries.len(),
        forall|i: int|
            0 <= i < entries.len() ==> #[trigger] entry_texts(entries)[i] == (
                entries[i].0@,
                entries[i].1@,
            ),
{
}

/// A listing holds the members of its set and nothing else, what stands earlier
/// being smaller.
pub proof fn law_lists(list: Seq<Seq<char>>, set: Set<Seq<char>>)
    ensures
        lists(list, set) <==> {
            &&& forall|p: Seq<char>| list.contains(p) <==> #[trigger] set.contains(p)
            &&& forall|i: int, j: int|
                0 <= i < j < list.len() ==> before(#[trigger] list[i], #[trigger] list[j])
        },
{
    if lists(list, set) {
        assert forall|p: Seq<char>| list.contains(p) <==> #[trigger] set.contains(p) by {
            assert(list.to_set().contains(p) <==> list.contains(p));
        }
    }
    if forall|p: Seq<char>| list.contains(p) <==> #[trigger] set.contains(p) {
        assert(list.to_set() =~= set);
    }
}

/// A file is changed exactly where it has a hash that is not the one recorded
/// for it; one that nothing is recorded for is changed.
pub proof fn law_changed(
    current: Map<Seq<char>, Seq<char>>,
    clean: Map<Seq<char>, Seq<char>>,
    path: Seq<char>,
)
    ensures
        changed_set(current, clean).contains(path) <==> current.contains_key(path) && !(
        clean.contains_key(path) && clean[path] == current[path]),
{
}

/// Of several readings of one file the latest that gave a hash counts; a file
/// that no reading gave a hash has none.
pub proof fn law_current_hash(rs: Seq<Read>, path: Seq<char>, i: int)
    ensures
        0 <= i < rs.len() && rs[i].0 == path && rs[i].1 is Some && (forall|j: int|
            i < j < rs.len() && (#[trigger] rs[j]).0 == path ==> rs[j].1 is None)
            ==> current_map(rs).get(path) == rs[i].1,
        (forall|j: int| 0 <= j < rs.len() && (#[trigger] rs[j]).0 == path ==> rs[j].1 is None)
            ==> !current_map(rs).contains_key(path),
    decreases rs.len(),
{
    if rs.len() > 0 {
        let head = rs.drop_last();
        law_current_hash(head, path, i);
        assert(rs.last() == rs[rs.len() - 1]);
        assert forall|j: int| 0 <= j < head.len() implies #[trigger] head[j] == rs[j] by {}
        if rs.last().0 == path && rs.last().1 is Some {
            assert(hash_now(rs, path) == rs.last().1);
        } else {
            assert(hash_now(rs, path) == hash_now(head, path));
            if 0 <= i < rs.len() && rs[i].0 == path && rs[i].1 is Some && (forall|j: int|
                i < j < rs.len() && (#[trigger] rs[j]).0 == path ==> rs[j].1 is None) {
                assert forall|j: int|
                    i < j < head.len() && (#[trigger] head[j]).0 == path implies head[j].1 is None by {
                    assert(head[j] == rs[j]);
                }
                assert(current_map(head).get(path) == head[i].1);
            }
        }
    }
}

proof fn lemma_recorded_at(rs: Seq<Read>, whole: bool, path: Seq<char>, i: int)
    requires
        0 <= i < rs.len(),
        rs[i].0 == path,
        rs[i].1 is Some || !whole,
        forall|j: int|
            i < j < rs.len() && (#[trigger] rs[j]).0 == path ==> whole && rs[j].1 is None,
    ensures
        recorded(rs, whole, path) == Some(rs[i].1),
    decreases rs.len(),
{
    assert(rs.last() == rs[rs.len() - 1]);
    if i < rs.len() - 1 {
        let head = rs.drop_last();
        assert forall|j: int| i < j < head.len() && (#[trigger] head[j]).0 == path implies whole
            && head[j].1 is None by {
            assert(head[j] == rs[j]);
        }
        assert(head[i] == rs[i]);
        lemma_recorded_at(head, whole, path, i);
    }
}

proof fn lemma_not_recorded(rs: Seq<Read>, whole: bool, path: Seq<char>)
    requires
        forall|j: int|
            0 <= j < rs.len() && (#[trigger] rs[j]).0 == path ==> whole && rs[j].1 is None,
    ensures
        recorded(rs, whole, path) is None,
    decreases rs.len(),
{
    if rs.len() > 0 {
        assert(rs.last() == rs[rs.len() - 1]);
        let head = rs.drop_last();
        assert forall|j: int| 0 <= j < head.len() && (#[trigger] head[j]).0 == path implies whole
            && head[j].1 is None by {
            assert(head[j] == rs[j]);
        }
        lemma_not_recorded(head, whole, path);
    }
}

/// A mark of named files leaves for each of them what its latest reading gave:
/// the hash, or no entry where there was none.
pub proof fn law_named_mark_records(
    clean: Map<Seq<char>, Seq<char>>,
    candidates: Seq<Seq<char>>,
    rs: Seq<Read>,
    i: int,
)
    requires
        0 <= i < rs.len(),
        forall|j: int| i < j < rs.len() ==> (#[trigger] rs[j]).0 != rs[i].0,
    ensures
        marked_map(clean, candidates, rs, false).get(rs[i].0) == rs[i].1,
{
    lemma_recorded_at(rs, false, rs[i].0, i);
    assert(marked_map(clean, candidates, rs, false).get(rs[i].0) == after_mark(
        clean,
        candidates,
        rs,
        false,
        rs[i].0,
    ));
}

/// A mark of the whole set leaves for each file the hash of its latest reading
/// that gave one.
pub proof fn law_whole_mark_records(
    clean: Map<Seq<char>, Seq<char>>,
    candidates: Seq<Seq<char>>,
    rs: Seq<Read>,
    i: int,
)
    requires
        0 <= i < rs.len(),
        rs[i].1 is Some,
        forall|j: int| i < j < rs.len() && (#[trigger] rs[j]).0 == rs[i].0 ==> rs[j].1 is None,
    ensures
        marked_map(clean, candidates, rs, true).get(rs[i].0) == rs[i].1,
{
    lemma_recorded_at(rs, true, rs[i].0, i);
    assert(marked_map(clean, candidates, rs, true).get(rs[i].0) == after_mark(
        clean,
        candidates,
        rs,
        true,
        rs[i].0,
    ));
}

/// A mark leaves the entry of a file that it did not read, or read without a
/// hash in a mark of the whole set, as it was where the file is a candidate, and
/// drops it where it is none.
pub proof fn law_mark_leaves_the_rest(
    clean: Map<Seq<char>, Seq<char>>,
    candidates: Seq<Seq<char>>,
    rs: Seq<Read>,
    whole: bool,
    path: Seq<char>,
)
    requires
        forall|j: int|
            0 <= j < rs.len() && (#[trigger] rs[j]).0 == path ==> whole && rs[j].1 is None,
    ensures
        marked_map(clean, candidates, rs, whole).get(path) == (if candidates.contains(path) {
            clean.get(path)
        } else {
            None
        }),
{
    lemma_not_recorded(rs, whole, path);
    assert(marked_map(clean, candidates, rs, whole).get(path) == after_mark(
        clean,
        candidates,
        rs,
        whole,
        path,
    ));
}

/// While files stay as they are, a mark of any of them, by name or with the
/// whole set, moves as many baselines as there are changed files among them.
pub proof fn law_mark_counts_the_changed(
    clean: Map<Seq<char>, Seq<char>>,
    rs: Seq<Read>,
    whole: bool,
)
    requires
        steady(rs),
    ensures
        moved(clean, rs, whole) == changed_set(current_map(rs), clean).len(),
{
    lemma_moved_either_way(clean, rs, whole);
    law_mark_counts_the_list(clean, rs);
}

proof fn lemma_moved_either_way(clean: Map<Seq<char>, Seq<char>>, rs: Seq<Read>, whole: bool)
    requires
        steady(rs),
    ensures
        moved(clean, rs, whole) == moved(clean, rs, true),
    decreases rs.len(),
{
    if rs.len() > 0 {
        let head = rs.drop_last();
        let last = rs.last();
        lemma_steady_head(rs);
        lemma_moved_either_way(clean, head, whole);
        if last.1 is Some {
            if recorded(head, whole, last.0) is Some {
                let k = lemma_recorded_from(head, whole, last.0);
                assert(head[k] == rs[k]);
                assert(rs[k].0 == rs[rs.len() - 1].0);
                lemma_steady_reading(head, true, k);
            }
            if recorded(head, true, last.0) is Some {
                let k = lemma_recorded_from(head, true, last.0);
                assert(head[k] == rs[k]);
                assert(rs[k].0 == rs[rs.len() - 1].0);
                lemma_steady_reading(head, whole, k);
            }
        }
    }
}

/// Marking nothing moves nothing. Each further reading moves one baseline more
/// exactly where it gave a hash that the mark of the readings before it did not
/// leave recorded.
pub proof fn law_each_reading_counts_once(
    clean: Map<Seq<char>, Seq<char>>,
    candidates: Seq<Seq<char>>,
    rs: Seq<Read>,
    next: Read,
    whole: bool,
)
    requires
        candidates.contains(next.0),
    ensures
        moved(clean, Seq::<Read>::empty(), whole) == 0,
        moved(clean, rs.push(next), whole) == moved(clean, rs, whole) + (if next.1 is Some
            && marked_map(clean, candidates, rs, whole).get(next.0) != next.1 {
            1int
        } else {
            0int
        }),
{
    assert(rs.push(next).drop_last() =~= rs);
    assert(marked_map(clean, candidates, rs, whole).get(next.0) == after_mark(
        clean,
        candidates,
        rs,
        whole,
        next.0,
    ));
}

/// Of several entries for one path the latest counts, and there is nothing for a
/// path without one.
pub proof fn law_entries(entries: Seq<(Seq<char>, Seq<char>)>, path: Seq<char>, i: int)
    ensures
        0 <= i < entries.len() && entries[i].0 == path && (forall|j: int|
            i < j < entries.len() ==> (#[trigger] entries[j]).0 != path) ==> entry_map(entries).get(
            path,
        ) == Some(entries[i].1),
        (forall|j: int| 0 <= j < entries.len() ==> (#[trigger] entries[j]).0 != path)
            ==> !entry_map(entries).contains_key(path),
    decreases entries.len(),
{
    if entries.len() > 0 {
        let head = entries.drop_last();
        law_entries(head, path, i);
        assert(entries.last() == entries[entries.len() - 1]);
        assert forall|j: int| 0 <= j < head.len() implies #[trigger] head[j] == entries[j] by {}
    }
}

} // verus!
