//! What holds of the library as a whole.

pub mod files;
pub mod marks;
pub mod report;
pub mod runs;
pub mod text;

use crate::cmd::{list_text, separator, terminated, Removal};
use crate::content::{file_hash, name_of, naming};
use crate::git::decoded;
use crate::layout::{
    absolute, consumer_of, depth, in_store, place, state_file, stays_below, step, store_dir,
    temp_file, walk,
};
use crate::order::{before, lemma_before_asymmetric, lemma_strictly_sorted_distinct};
use crate::repo::{
    after_mark, changed_set, current_map, hash_now, lemma_lists_len, lemma_recorded_or_hash,
    lemma_same_entries, lists, marked_map, moved, read_paths, recorded, Read,
};
use crate::run::{next_step, passing, History, Step};
use crate::text::{fields, filled, lemma_split_on_some, split_on};
use vstd::prelude::*;
use vstd::utf8::*;

verus! {

/// The listing of a set is unique: what `list` prints is determined by the
/// contents of the files and the baseline.
pub proof fn law_listing_unique(a: Seq<Seq<char>>, b: Seq<Seq<char>>, set: Set<Seq<char>>)
    requires
        lists(a, set),
        lists(b, set),
    ensures
        a == b,
    decreases a.len(),
{
    lemma_strictly_sorted_distinct(a);
    lemma_strictly_sorted_distinct(b);
    a.unique_seq_to_set();
    b.unique_seq_to_set();
    if a.len() > 0 {
        assert(set.contains(a.last()));
        assert(set.contains(b.last()));
        let i = b.index_of(a.last());
        let j = a.index_of(b.last());
        if a.last() != b.last() {
            assert(before(b[i], b.last()));
            assert(before(a[j], a.last()));
            lemma_before_asymmetric(a.last(), b.last());
        }
        let rest = set.remove(a.last());
        assert(a.drop_last().to_set() =~= rest) by {
            assert forall|p: Seq<char>| #[trigger]
                a.drop_last().to_set().contains(p) <==> rest.contains(p) by {
                lemma_drop_last_contains(a, p);
            }
        }
        assert(b.drop_last().to_set() =~= rest) by {
            assert forall|p: Seq<char>| #[trigger]
                b.drop_last().to_set().contains(p) <==> rest.contains(p) by {
                lemma_drop_last_contains(b, p);
            }
        }
        law_listing_unique(a.drop_last(), b.drop_last(), rest);
        assert(a =~= a.drop_last().push(a.last()));
        assert(b =~= b.drop_last().push(b.last()));
    } else {
        assert(b =~= a);
    }
}

proof fn lemma_drop_last_contains(s: Seq<Seq<char>>, p: Seq<char>)
    requires
        s.len() > 0,
        s.no_duplicates(),
    ensures
        s.drop_last().contains(p) <==> s.contains(p) && p != s.last(),
{
    if s.contains(p) && p != s.last() {
        let k = s.index_of(p);
        assert(s.drop_last()[k] == p);
    }
    if s.drop_last().contains(p) {
        let k = s.drop_last().index_of(p);
        assert(s[k] == p);
    }
}

/// `status` counts as many changed files as `list` prints.
pub proof fn law_status_counts_the_list(list: Seq<Seq<char>>, set: Set<Seq<char>>)
    requires
        lists(list, set),
    ensures
        set.len() == list.len(),
{
    lemma_lists_len(list, set);
}

/// A file none of whose readings gave a hash is in no change set, whatever the
/// baseline: lockfiles, binary files and files that cannot be read are never
/// listed.
pub proof fn law_noise_is_never_listed(
    rs: Seq<Read>,
    clean: Map<Seq<char>, Seq<char>>,
    path: Seq<char>,
)
    requires
        forall|i: int| 0 <= i < rs.len() && (#[trigger] rs[i]).0 == path ==> rs[i].1 is None,
    ensures
        !changed_set(current_map(rs), clean).contains(path),
    decreases rs.len(),
{
    if rs.len() > 0 {
        assert(rs.last() == rs[rs.len() - 1]);
        assert forall|i: int|
            0 <= i < rs.drop_last().len() && (#[trigger] rs.drop_last()[i]).0
                == path implies rs.drop_last()[i].1 is None by {
            assert(rs.drop_last()[i] == rs[i]);
        }
        law_noise_is_never_listed(rs.drop_last(), clean, path);
    }
}

/// Marking the whole set leaves nothing to list while the files stay as they
/// were read.
pub proof fn law_mark_then_clean(
    clean: Map<Seq<char>, Seq<char>>,
    candidates: Seq<Seq<char>>,
    rs: Seq<Read>,
)
    ensures
        changed_set(current_map(rs), marked_map(clean, candidates, rs, true)) == Set::<
            Seq<char>,
        >::empty(),
{
    let next = marked_map(clean, candidates, rs, true);
    assert forall|p: Seq<char>| !#[trigger] changed_set(current_map(rs), next).contains(p) by {
        lemma_whole_records_hash(rs, p);
    }
    assert(changed_set(current_map(rs), next) =~= Set::<Seq<char>>::empty());
}

/// A mark of the whole set records what the readings gave and nothing else.
proof fn lemma_whole_records_hash(rs: Seq<Read>, path: Seq<char>)
    ensures
        recorded(rs, true, path) == (match hash_now(rs, path) {
            Some(hash) => Some(Some(hash)),
            None => None::<Option<Seq<char>>>,
        }),
    decreases rs.len(),
{
    if rs.len() > 0 {
        lemma_whole_records_hash(rs.drop_last(), path);
    }
}

/// A mark of named files takes exactly these out of the change set: a named
/// file is clean, every other one stays as it was. `current` holds the hashes
/// of the candidates, with which the readings of the named files agree.
pub proof fn law_selective_mark(
    clean: Map<Seq<char>, Seq<char>>,
    candidates: Seq<Seq<char>>,
    rs: Seq<Read>,
    current: Map<Seq<char>, Seq<char>>,
)
    requires
        forall|p: Seq<char>| #[trigger] current.contains_key(p) ==> candidates.contains(p),
        forall|i: int|
            0 <= i < rs.len() && candidates.contains((#[trigger] rs[i]).0) ==> rs[i].1
                == current.get(rs[i].0),
    ensures
        changed_set(current, marked_map(clean, candidates, rs, false)) == changed_set(
            current,
            clean,
        ).difference(read_paths(rs).to_set()),
{
    let next = marked_map(clean, candidates, rs, false);
    let left = changed_set(current, clean).difference(read_paths(rs).to_set());
    assert forall|p: Seq<char>| #[trigger] changed_set(current, next).contains(p) <==> left.contains(
        p,
    ) by {
        lemma_named_recorded(candidates, rs, current, p);
        assert(next.get(p) == after_mark(clean, candidates, rs, false, p));
    }
    assert(changed_set(current, next) =~= left);
}

/// The entry that a mark of named files gives a candidate.
proof fn lemma_named_recorded(
    candidates: Seq<Seq<char>>,
    rs: Seq<Read>,
    current: Map<Seq<char>, Seq<char>>,
    path: Seq<char>,
)
    requires
        forall|i: int|
            0 <= i < rs.len() && candidates.contains((#[trigger] rs[i]).0) ==> rs[i].1
                == current.get(rs[i].0),
    ensures
        recorded(rs, false, path) is Some <==> read_paths(rs).contains(path),
        candidates.contains(path) && recorded(rs, false, path) is Some ==> recorded(
            rs,
            false,
            path,
        ) == Some(current.get(path)),
    decreases rs.len(),
{
    if rs.len() > 0 {
        let head = rs.drop_last();
        assert forall|i: int|
            0 <= i < head.len() && candidates.contains((#[trigger] head[i]).0) implies head[i].1
            == current.get(head[i].0) by {
            assert(head[i] == rs[i]);
        }
        lemma_named_recorded(candidates, head, current, path);
        assert(rs.last() == rs[rs.len() - 1]);
        let all = read_paths(rs);
        assert(all[rs.len() - 1] == rs.last().0);
        if read_paths(head).contains(path) {
            let k = read_paths(head).index_of(path);
            assert(all[k] == path);
        }
        if all.contains(path) && rs.last().0 != path {
            let k = all.index_of(path);
            assert(read_paths(head)[k] == path);
        }
    } else {
        assert(read_paths(rs).len() == 0);
    }
}

/// `list`, then `mark` of what it printed: nothing is left to list while the
/// files stay as they were read.
pub proof fn law_list_then_mark_is_clean(
    clean: Map<Seq<char>, Seq<char>>,
    candidates: Seq<Seq<char>>,
    rs: Seq<Read>,
    current: Map<Seq<char>, Seq<char>>,
)
    requires
        forall|p: Seq<char>| #[trigger] current.contains_key(p) ==> candidates.contains(p),
        forall|i: int|
            0 <= i < rs.len() && candidates.contains((#[trigger] rs[i]).0) ==> rs[i].1
                == current.get(rs[i].0),
        lists(read_paths(rs), changed_set(current, clean)),
    ensures
        changed_set(current, marked_map(clean, candidates, rs, false)) == Set::<
            Seq<char>,
        >::empty(),
{
    law_selective_mark(clean, candidates, rs, current);
    assert(changed_set(current, marked_map(clean, candidates, rs, false)) =~= Set::<
        Seq<char>,
    >::empty());
}

/// Dropping the entries of files that are no candidates changes no list.
pub proof fn law_prune_is_invisible(
    clean: Map<Seq<char>, Seq<char>>,
    candidates: Seq<Seq<char>>,
    current: Map<Seq<char>, Seq<char>>,
)
    requires
        forall|p: Seq<char>| #[trigger] current.contains_key(p) ==> candidates.contains(p),
    ensures
        changed_set(current, clean.restrict(candidates.to_set())) == changed_set(current, clean),
{
    let kept = clean.restrict(candidates.to_set());
    assert forall|p: Seq<char>| #[trigger] changed_set(current, kept).contains(p) <==> changed_set(
        current,
        clean,
    ).contains(p) by {}
    assert(changed_set(current, kept) =~= changed_set(current, clean));
}

/// A mark keeps no entry but those of candidates and of files that were just
/// read with a hash.
pub proof fn law_mark_prunes(
    clean: Map<Seq<char>, Seq<char>>,
    candidates: Seq<Seq<char>>,
    rs: Seq<Read>,
    whole: bool,
    path: Seq<char>,
)
    requires
        marked_map(clean, candidates, rs, whole).contains_key(path),
    ensures
        candidates.contains(path) || hash_now(rs, path) is Some,
{
    if !candidates.contains(path) {
        lemma_recorded_or_hash(rs, whole, path);
    }
}

/// The files stay as they are while they are read: all readings of one file
/// agree.
pub open spec fn steady(rs: Seq<Read>) -> bool {
    forall|i: int, j: int|
        0 <= i < rs.len() && 0 <= j < rs.len() && (#[trigger] rs[i]).0 == (#[trigger] rs[j]).0
            ==> rs[i].1 == rs[j].1
}

/// What is recorded comes from a reading.
proof fn lemma_recorded_from(rs: Seq<Read>, whole: bool, path: Seq<char>) -> (i: int)
    requires
        recorded(rs, whole, path) is Some,
    ensures
        0 <= i < rs.len(),
        rs[i].0 == path,
        Some(rs[i].1) == recorded(rs, whole, path),
    decreases rs.len(),
{
    if rs.last().0 == path && (rs.last().1 is Some || !whole) {
        rs.len() - 1
    } else {
        let i = lemma_recorded_from(rs.drop_last(), whole, path);
        assert(rs.drop_last()[i] == rs[i]);
        i
    }
}

proof fn lemma_steady_head(rs: Seq<Read>)
    requires
        rs.len() > 0,
        steady(rs),
    ensures
        steady(rs.drop_last()),
{
    let head = rs.drop_last();
    assert forall|i: int, j: int|
        0 <= i < head.len() && 0 <= j < head.len() && (#[trigger] head[i]).0 == (
        #[trigger] head[j]).0 implies head[i].1 == head[j].1 by {
        assert(head[i] == rs[i] && head[j] == rs[j]);
    }
}

/// A mark of the whole set moves as many baselines as `list` would have
/// printed files.
pub proof fn law_mark_counts_the_list(clean: Map<Seq<char>, Seq<char>>, rs: Seq<Read>)
    requires
        steady(rs),
    ensures
        changed_set(current_map(rs), clean).finite(),
        moved(clean, rs, true) == changed_set(current_map(rs), clean).len(),
    decreases rs.len(),
{
    let all = changed_set(current_map(rs), clean);
    if rs.len() == 0 {
        assert(all =~= Set::<Seq<char>>::empty());
    } else {
        let head = rs.drop_last();
        let last = rs.last();
        let some = changed_set(current_map(head), clean);
        lemma_steady_head(rs);
        law_mark_counts_the_list(clean, head);
        lemma_whole_records_hash(head, last.0);
        if last.1 is Some && hash_now(head, last.0) is Some {
            let k = lemma_recorded_from(head, true, last.0);
            assert(head[k] == rs[k]);
            assert(rs[k].0 == rs[rs.len() - 1].0);
        }
        if last.1 is Some && hash_now(head, last.0) is None && clean.get(last.0) != last.1 {
            assert(all =~= some.insert(last.0)) by {
                assert forall|p: Seq<char>| #[trigger]
                    all.contains(p) <==> some.insert(last.0).contains(p) by {
                    assert(hash_now(rs, p) == if p == last.0 {
                        last.1
                    } else {
                        hash_now(head, p)
                    });
                }
            }
        } else {
            assert(all =~= some) by {
                assert forall|p: Seq<char>| #[trigger] all.contains(p) <==> some.contains(p) by {
                    if p != last.0 {
                        assert(hash_now(rs, p) == hash_now(head, p));
                    }
                }
            }
        }
    }
}

/// Marking the same files again while they stay as they were moves nothing and
/// leaves the baseline as it is.
pub proof fn law_mark_twice(
    clean: Map<Seq<char>, Seq<char>>,
    candidates: Seq<Seq<char>>,
    rs: Seq<Read>,
    whole: bool,
)
    requires
        steady(rs),
    ensures
        moved(marked_map(clean, candidates, rs, whole), rs, whole) == 0,
        marked_map(marked_map(clean, candidates, rs, whole), candidates, rs, whole) == marked_map(
            clean,
            candidates,
            rs,
            whole,
        ),
{
    let once = marked_map(clean, candidates, rs, whole);
    let twice = marked_map(once, candidates, rs, whole);
    assert forall|p: Seq<char>| #[trigger] once.get(p) == twice.get(p) by {
        assert(once.get(p) == after_mark(clean, candidates, rs, whole, p));
        assert(twice.get(p) == after_mark(once, candidates, rs, whole, p));
    }
    lemma_same_entries(once, twice);
    assert forall|i: int| 0 <= i < rs.len() && (#[trigger] rs[i]).1 is Some implies once.get(
        rs[i].0,
    ) == rs[i].1 by {
        lemma_steady_reading(rs, whole, i);
        assert(once.get(rs[i].0) == after_mark(clean, candidates, rs, whole, rs[i].0));
    }
    lemma_nothing_moves(once, rs, whole);
}

/// Of a steady file, the reading with a hash is what is recorded.
proof fn lemma_steady_reading(rs: Seq<Read>, whole: bool, i: int)
    requires
        steady(rs),
        0 <= i < rs.len(),
        rs[i].1 is Some,
    ensures
        recorded(rs, whole, rs[i].0) == Some(rs[i].1),
    decreases rs.len(),
{
    assert(rs.last() == rs[rs.len() - 1]);
    if rs.last().0 != rs[i].0 {
        lemma_steady_head(rs);
        assert(rs.drop_last()[i] == rs[i]);
        lemma_steady_reading(rs.drop_last(), whole, i);
    }
}

/// Readings that the baseline records already move nothing.
proof fn lemma_nothing_moves(clean: Map<Seq<char>, Seq<char>>, rs: Seq<Read>, whole: bool)
    requires
        steady(rs),
        forall|i: int|
            0 <= i < rs.len() && (#[trigger] rs[i]).1 is Some ==> clean.get(rs[i].0) == rs[i].1,
    ensures
        moved(clean, rs, whole) == 0,
    decreases rs.len(),
{
    if rs.len() > 0 {
        let head = rs.drop_last();
        lemma_steady_head(rs);
        assert forall|i: int| 0 <= i < head.len() && (#[trigger] head[i]).1 is Some implies clean.get(
            head[i].0,
        ) == head[i].1 by {
            assert(head[i] == rs[i]);
        }
        lemma_nothing_moves(clean, head, whole);
        assert(rs.last() == rs[rs.len() - 1]);
        if recorded(head, whole, rs.last().0) is Some {
            let k = lemma_recorded_from(head, whole, rs.last().0);
            assert(head[k] == rs[k]);
        }
    }
}

/// The working tree as it is read: each path with the fingerprint of the file
/// that `tree` holds there.
pub open spec fn observed(tree: Map<Seq<char>, Seq<u8>>, paths: Seq<Seq<char>>) -> Seq<Read> {
    paths.map_values(|p: Seq<char>| (p, file_hash(p, tree.get(p))))
}

/// The hash that a path of the tree is read with.
proof fn lemma_observed(tree: Map<Seq<char>, Seq<u8>>, paths: Seq<Seq<char>>, path: Seq<char>)
    ensures
        hash_now(observed(tree, paths), path) == (if paths.contains(path) {
            file_hash(path, tree.get(path))
        } else {
            None
        }),
    decreases paths.len(),
{
    if paths.len() > 0 {
        let head = paths.drop_last();
        lemma_observed(tree, head, path);
        assert(observed(tree, paths).drop_last() =~= observed(tree, head));
        assert(paths[paths.len() - 1] == paths.last());
        if head.contains(path) {
            let k = head.index_of(path);
            assert(paths[k] == path);
        }
        if paths.contains(path) && path != paths.last() {
            let k = paths.index_of(path);
            assert(head[k] == path);
        }
    }
}

proof fn lemma_observed_steady(tree: Map<Seq<char>, Seq<u8>>, paths: Seq<Seq<char>>)
    ensures
        steady(observed(tree, paths)),
        read_paths(observed(tree, paths)) == paths,
{
    assert(read_paths(observed(tree, paths)) =~= paths);
}

/// Where each file is read once, with a hash that is not recorded, each reading
/// moves a baseline.
proof fn lemma_all_move(clean: Map<Seq<char>, Seq<char>>, rs: Seq<Read>)
    requires
        read_paths(rs).no_duplicates(),
        forall|i: int|
            0 <= i < rs.len() ==> (#[trigger] rs[i]).1 is Some && clean.get(rs[i].0) != rs[i].1,
    ensures
        moved(clean, rs, false) == rs.len(),
    decreases rs.len(),
{
    if rs.len() > 0 {
        let head = rs.drop_last();
        let last = rs.last();
        assert(read_paths(head) =~= read_paths(rs).drop_last());
        assert forall|i: int| 0 <= i < head.len() implies (#[trigger] head[i]).1 is Some
            && clean.get(head[i].0) != head[i].1 by {
            assert(head[i] == rs[i]);
        }
        lemma_all_move(clean, head);
        assert(last == rs[rs.len() - 1]);
        if recorded(head, false, last.0) is Some {
            let k = lemma_recorded_from(head, false, last.0);
            assert(read_paths(rs)[k] == head[k].0);
            assert(read_paths(rs)[rs.len() - 1] == last.0);
        }
    }
}

/// A mark with no paths is a mark of the whole changed set: it leaves the
/// baseline and gives the count that naming every listed file would.
pub proof fn law_bare_mark_is_mark_of_the_list(
    clean: Map<Seq<char>, Seq<char>>,
    tree: Map<Seq<char>, Seq<u8>>,
    candidates: Seq<Seq<char>>,
    list: Seq<Seq<char>>,
)
    requires
        lists(list, changed_set(current_map(observed(tree, candidates)), clean)),
    ensures
        marked_map(clean, candidates, observed(tree, candidates), true) == marked_map(
            clean,
            candidates,
            observed(tree, list),
            false,
        ),
        moved(clean, observed(tree, candidates), true) == moved(clean, observed(tree, list), false),
{
    let all = observed(tree, candidates);
    let some = observed(tree, list);
    let changed = changed_set(current_map(all), clean);
    let bare = marked_map(clean, candidates, all, true);
    let named = marked_map(clean, candidates, some, false);
    lemma_observed_steady(tree, candidates);
    lemma_observed_steady(tree, list);
    lemma_strictly_sorted_distinct(list);
    assert forall|p: Seq<char>| #[trigger] bare.get(p) == named.get(p) by {
        law_listed_by_contents(tree, candidates, clean, p);
        lemma_observed(tree, candidates, p);
        lemma_whole_records_hash(all, p);
        assert(changed.contains(p) <==> list.contains(p));
        lemma_named_observed(tree, list, p);
        assert(bare.get(p) == after_mark(clean, candidates, all, true, p));
        assert(named.get(p) == after_mark(clean, candidates, some, false, p));
    }
    lemma_same_entries(bare, named);
    law_mark_counts_the_list(clean, all);
    lemma_lists_len(list, changed);
    assert forall|i: int| 0 <= i < some.len() implies (#[trigger] some[i]).1 is Some && clean.get(
        some[i].0,
    ) != some[i].1 by {
        assert(list.contains(list[i]));
        assert(changed.contains(list[i]));
        law_listed_by_contents(tree, candidates, clean, list[i]);
    }
    lemma_all_move(clean, some);
}

/// What a mark of named files records of a tree.
proof fn lemma_named_observed(
    tree: Map<Seq<char>, Seq<u8>>,
    paths: Seq<Seq<char>>,
    path: Seq<char>,
)
    ensures
        recorded(observed(tree, paths), false, path) == (if paths.contains(path) {
            Some(file_hash(path, tree.get(path)))
        } else {
            None
        }),
    decreases paths.len(),
{
    if paths.len() > 0 {
        let head = paths.drop_last();
        lemma_named_observed(tree, head, path);
        assert(observed(tree, paths).drop_last() =~= observed(tree, head));
        assert(paths[paths.len() - 1] == paths.last());
        if head.contains(path) {
            let k = head.index_of(path);
            assert(paths[k] == path);
        }
        if paths.contains(path) && path != paths.last() {
            let k = paths.index_of(path);
            assert(head[k] == path);
        }
    }
}

/// What is listed, by the contents of the files: the candidates that have a
/// fingerprint which is not the recorded one.
pub proof fn law_listed_by_contents(
    tree: Map<Seq<char>, Seq<u8>>,
    candidates: Seq<Seq<char>>,
    clean: Map<Seq<char>, Seq<char>>,
    path: Seq<char>,
)
    ensures
        changed_set(current_map(observed(tree, candidates)), clean).contains(path) <==> {
            let hash = file_hash(path, tree.get(path));
            candidates.contains(path) && hash is Some && clean.get(path) != hash
        },
{
    lemma_observed(tree, candidates, path);
}

/// The files that a mark of `paths` reads: these, or every candidate where none
/// is named.
pub open spec fn marks(paths: Seq<Seq<char>>, candidates: Seq<Seq<char>>) -> Seq<Seq<char>> {
    if paths.len() == 0 {
        candidates
    } else {
        paths
    }
}

/// A file that holds the bytes it held when it was marked, by name or with the
/// whole set, is not listed, whatever happened to the tree in between.
pub proof fn law_same_bytes_stay_clean(
    clean: Map<Seq<char>, Seq<char>>,
    then_tree: Map<Seq<char>, Seq<u8>>,
    then_candidates: Seq<Seq<char>>,
    paths: Seq<Seq<char>>,
    tree: Map<Seq<char>, Seq<u8>>,
    candidates: Seq<Seq<char>>,
    path: Seq<char>,
)
    requires
        marks(paths, then_candidates).contains(path),
        tree.get(path) == then_tree.get(path),
    ensures
        !changed_set(
            current_map(observed(tree, candidates)),
            marked_map(
                clean,
                then_candidates,
                observed(then_tree, marks(paths, then_candidates)),
                paths.len() == 0,
            ),
        ).contains(path),
{
    let read = marks(paths, then_candidates);
    lemma_observed(tree, candidates, path);
    lemma_observed(then_tree, read, path);
    lemma_whole_records_hash(observed(then_tree, read), path);
    lemma_named_observed(then_tree, read, path);
}

/// A file whose contents differ from what was marked is listed again.
pub proof fn law_rechange_is_listed(
    current: Map<Seq<char>, Seq<char>>,
    clean: Map<Seq<char>, Seq<char>>,
    path: Seq<char>,
    hash: Seq<char>,
)
    requires
        current.get(path) == Some(hash),
        clean.get(path) != Some(hash),
    ensures
        changed_set(current, clean).contains(path),
{
}

/// A consumer whose baseline was forgotten is given every file that has a
/// hash.
pub proof fn law_reset_lists_everything(current: Map<Seq<char>, Seq<char>>)
    ensures
        changed_set(current, Map::<Seq<char>, Seq<char>>::empty()) == current.dom(),
{
    let all = changed_set(current, Map::<Seq<char>, Seq<char>>::empty());
    assert forall|p: Seq<char>| #[trigger] all.contains(p) <==> current.dom().contains(p) by {}
    assert(all =~= current.dom());
}

/// Pieces of a text with more behind it: up to the last one they stay, and the
/// last one goes on until the next separator.
proof fn lemma_split_append(a: Seq<char>, b: Seq<char>, sep: char)
    requires
        !b.contains(sep),
    ensures
        split_on(a + b, sep) == split_on(a, sep).drop_last().push(split_on(a, sep).last() + b),
    decreases b.len(),
{
    lemma_split_on_some(a, sep);
    let parts = split_on(a, sep);
    if b.len() == 0 {
        assert(a + b =~= a);
        assert(parts.last() + b =~= parts.last());
        assert(parts.drop_last().push(parts.last()) =~= parts);
    } else {
        let c = b.last();
        assert(b.contains(c));
        assert forall|x: char| b.drop_last().contains(x) implies b.contains(x) by {
            let k = b.drop_last().index_of(x);
            assert(b[k] == x);
        }
        lemma_split_append(a, b.drop_last(), sep);
        assert((a + b).drop_last() =~= a + b.drop_last());
        assert((a + b).last() == c);
        let head = parts.drop_last().push(parts.last() + b.drop_last());
        assert(head.drop_last() =~= parts.drop_last());
        assert((parts.last() + b.drop_last()).push(c) =~= parts.last() + b);
    }
}

/// Paths that are each ended by a separator split back into these paths and an
/// empty rest.
proof fn lemma_split_terminated(paths: Seq<Seq<char>>, sep: char)
    requires
        forall|i: int| 0 <= i < paths.len() ==> !(#[trigger] paths[i]).contains(sep),
    ensures
        split_on(terminated(paths, sep), sep) == paths.push(Seq::<char>::empty()),
    decreases paths.len(),
{
    let none = Seq::<char>::empty();
    if paths.len() == 0 {
        assert(split_on(none, sep) =~= paths.push(none));
    } else {
        let head = paths.drop_last();
        let path = paths.last();
        assert forall|i: int| 0 <= i < head.len() implies !(#[trigger] head[i]).contains(sep) by {
            assert(head[i] == paths[i]);
        }
        lemma_split_terminated(head, sep);
        assert(path == paths[paths.len() - 1]);
        let start = terminated(head, sep);
        lemma_split_append(start, path, sep);
        assert(head.push(none).drop_last() =~= head);
        assert(none + path =~= path);
        assert(terminated(paths, sep).drop_last() =~= start + path);
        assert(terminated(paths, sep).last() == sep);
        assert(head.push(path) =~= paths);
    }
}

proof fn lemma_filter_all_filled(parts: Seq<Seq<char>>)
    requires
        forall|i: int| 0 <= i < parts.len() ==> (#[trigger] parts[i]).len() > 0,
    ensures
        parts.filter(filled()) == parts,
    decreases parts.len(),
{
    reveal(Seq::filter);
    if parts.len() > 0 {
        let head = parts.drop_last();
        assert forall|i: int| 0 <= i < head.len() implies (#[trigger] head[i]).len() > 0 by {
            assert(head[i] == parts[i]);
        }
        lemma_filter_all_filled(head);
        assert(parts[parts.len() - 1].len() > 0);
        assert(head.push(parts.last()) =~= parts);
    }
}

/// `list | mark --stdin`, and `list -z | mark --stdin -z`: the paths that a
/// list writes are the paths that a mark reads, where none of them is empty or
/// holds the separator.
pub proof fn law_list_mark_round_trip(paths: Seq<Seq<char>>, null: bool)
    requires
        forall|i: int|
            0 <= i < paths.len() ==> (#[trigger] paths[i]).len() > 0 && !paths[i].contains(
                separator(null),
            ),
    ensures
        fields(decoded(encode_utf8(list_text(paths, null, false))), separator(null)) == paths,
{
    let sep = separator(null);
    let text = terminated(paths, sep);
    encode_utf8_valid_utf8(text);
    encode_utf8_decode_utf8(text);
    assert(decoded(encode_utf8(text)) == text);
    lemma_split_terminated(paths, sep);
    lemma_filter_all_filled(paths);
    paths.lemma_filter_push(Seq::<char>::empty(), filled());
}

/// Every path that is read off a stream is not empty and holds no separator,
/// so that the paths git reports pass through `list -z | mark --stdin -z`
/// unchanged.
pub proof fn law_fields_are_clean(text: Seq<char>, sep: char, i: int)
    requires
        0 <= i < fields(text, sep).len(),
    ensures
        fields(text, sep)[i].len() > 0,
        !fields(text, sep)[i].contains(sep),
{
    let parts = split_on(text, sep);
    parts.lemma_filter_pred(filled(), i);
    let part = fields(text, sep)[i];
    assert(fields(text, sep).contains(part));
    parts.lemma_filter_contains_rev(filled(), part);
    assert(parts.contains(part));
    let k = parts.index_of(part);
    lemma_pieces_free(text, sep, k);
}

proof fn lemma_pieces_free(text: Seq<char>, sep: char, k: int)
    requires
        0 <= k < split_on(text, sep).len(),
    ensures
        !split_on(text, sep)[k].contains(sep),
    decreases text.len(),
{
    if text.len() > 0 {
        let head = split_on(text.drop_last(), sep);
        lemma_split_on_some(text.drop_last(), sep);
        if k < head.len() {
            lemma_pieces_free(text.drop_last(), sep, k);
        }
        if k == head.len() - 1 && text.last() != sep {
            let piece = head.last().push(text.last());
            if piece.contains(sep) {
                let j = piece.index_of(sep);
                assert(head.last()[j] == sep);
            }
        }
    }
}

/// The file that a path leads to is named by what follows the last separator.
pub proof fn law_name_of_a_file(dir: Seq<char>, name: Seq<char>)
    requires
        !name.contains('/'),
        name.len() > 0,
        name != "."@,
        name != ".."@,
    ensures
        name_of(dir.push('/') + name) == Some(name),
{
    lemma_last_component(dir, name);
    let parts = split_on(dir.push('/') + name, '/');
    assert(parts =~= parts.drop_last().push(name));
    parts.drop_last().lemma_filter_push(name, naming());
}

proof fn lemma_last_component(dir: Seq<char>, name: Seq<char>)
    requires
        !name.contains('/'),
    ensures
        split_on(dir.push('/') + name, '/').len() > 0,
        split_on(dir.push('/') + name, '/').last() == name,
{
    lemma_split_append(dir.push('/'), name, '/');
    assert(dir.push('/').drop_last() =~= dir);
    assert(split_on(dir.push('/'), '/').last() == Seq::<char>::empty());
    assert(Seq::<char>::empty() + name =~= name);
}

/// The name of a baseline file leads back to its consumer.
pub proof fn law_file_names_its_consumer(git_dir: Seq<char>, consumer: Seq<char>)
    requires
        !consumer.contains('/'),
    ensures
        consumer_of(split_on(state_file(git_dir, consumer), '/').last()) == Some(consumer),
{
    reveal_strlit(".json");
    let name = consumer + ".json"@;
    lemma_store_dir(git_dir);
    assert(!name.contains('/')) by {
        if name.contains('/') {
            let k = name.index_of('/');
            if k < consumer.len() {
                assert(consumer[k] == '/');
            }
        }
    }
    assert(state_file(git_dir, consumer) == store_dir(git_dir).push('/') + name) by {
        if name[0] == '/' {
            assert(name.contains('/'));
        }
    }
    lemma_last_component(store_dir(git_dir), name);
    assert(name.subrange(consumer.len() as int, name.len() as int) =~= ".json"@);
    assert(name.take(consumer.len() as int) =~= consumer);
}

/// The temporary file of a save that is under way is taken for no consumer's
/// baseline, and it is the baseline file of none: until it is renamed, every
/// baseline is as it was.
pub proof fn law_temp_file_is_no_baseline(
    target: Seq<char>,
    git_dir: Seq<char>,
    consumer: Seq<char>,
)
    ensures
        consumer_of(split_on(temp_file(target), '/').last()) is None,
        place(temp_file(target)) != place(state_file(git_dir, consumer)),
{
    reveal_strlit(".json");
    reveal_strlit(".json.tmp");
    reveal_strlit(".tmp");
    let last = split_on(target, '/').last();
    let tail = if last == ".json"@ {
        ".json.tmp"@
    } else {
        ".tmp"@
    };
    assert(temp_file(target) == target + tail);
    lemma_split_append(target, tail, '/');
    let temp = last + tail;
    assert(temp.last() == 'p');
    if ".json"@.is_suffix_of(temp) {
        assert(temp.subrange(temp.len() - 5, temp.len() as int)[4] == ".json"@[4]);
    }
    lemma_place_last(temp_file(target));
    let file = state_file(git_dir, consumer);
    let head = if absolute(consumer + ".json"@) {
        consumer
    } else {
        store_dir(git_dir).push('/') + consumer
    };
    lemma_store_dir(git_dir);
    assert(file =~= head + ".json"@);
    lemma_split_append(head, ".json"@, '/');
    let name = split_on(file, '/').last();
    assert(name.last() == ".json"@[4]);
    lemma_place_last(file);
}

/// A path whose last component is the name of something leads to a place of
/// that name.
proof fn lemma_place_last(path: Seq<char>)
    requires
        split_on(path, '/').last().len() > 2,
    ensures
        place(path).len() > 0,
        place(path).last() == split_on(path, '/').last(),
{
    reveal_strlit(".");
    reveal_strlit("..");
    lemma_split_on_some(path, '/');
}

proof fn lemma_store_dir(git_dir: Seq<char>)
    ensures
        store_dir(git_dir).len() > 0,
        store_dir(git_dir).last() == 'n',
{
    reveal_strlit("glean");
    assert("glean"@[4] == 'n');
    assert(store_dir(git_dir)[store_dir(git_dir).len() - 1] == 'n');
}

/// `a` is the full path of the baseline file of `b`, without its extension.
pub open spec fn aliases(git_dir: Seq<char>, a: Seq<char>, b: Seq<char>) -> bool {
    absolute(a) && !absolute(b) && a == store_dir(git_dir).push('/') + b
}

/// The paths of two consumers' baseline files are the same text only where one
/// consumer is named by the full path of the other's file. That is said of the
/// text alone: the consumers `a` and `./a` have different paths that lead to one
/// file.
pub proof fn law_consumers_apart(git_dir: Seq<char>, a: Seq<char>, b: Seq<char>)
    ensures
        state_file(git_dir, a) == state_file(git_dir, b) <==> a == b || aliases(git_dir, a, b)
            || aliases(git_dir, b, a),
{
    reveal_strlit(".json");
    let ext = ".json"@;
    let base = store_dir(git_dir).push('/');
    lemma_store_dir(git_dir);
    let x = a + ext;
    let y = b + ext;
    assert(x.take(a.len() as int) =~= a);
    assert(y.take(b.len() as int) =~= b);
    assert(absolute(x) == absolute(a));
    assert(absolute(y) == absolute(b));
    if state_file(git_dir, a) == state_file(git_dir, b) {
        if absolute(a) && absolute(b) {
            assert(a.len() == b.len());
        } else if absolute(a) {
            assert(x == base + y);
            assert((base + y).take(a.len() as int) =~= base + b);
        } else if absolute(b) {
            assert(y == base + x);
            assert((base + x).take(b.len() as int) =~= base + a);
        } else {
            assert((base + x).skip(base.len() as int) =~= x);
            assert((base + y).skip(base.len() as int) =~= y);
            assert(a.len() == b.len());
        }
    }
    if aliases(git_dir, a, b) {
        assert(x =~= base + y);
    }
    if aliases(git_dir, b, a) {
        assert(y =~= base + x);
    }
}

/// A mark by one consumer leaves the list of every consumer with another path
/// as it was: `files` holds the baselines by path, and the mark writes the path
/// of `a`. Here too a path is its text: a mark by `a` does reach `./a`.
pub proof fn law_mark_leaves_others(
    git_dir: Seq<char>,
    a: Seq<char>,
    b: Seq<char>,
    files: Map<Seq<char>, Map<Seq<char>, Seq<char>>>,
    saved: Map<Seq<char>, Seq<char>>,
    current: Map<Seq<char>, Seq<char>>,
)
    requires
        a != b,
        !aliases(git_dir, a, b),
        !aliases(git_dir, b, a),
    ensures
        ({
            let after = files.insert(state_file(git_dir, a), saved);
            &&& after.get(state_file(git_dir, b)) == files.get(state_file(git_dir, b))
            &&& changed_set(current, after[state_file(git_dir, b)]) == changed_set(
                current,
                files[state_file(git_dir, b)],
            )
        }),
{
    law_consumers_apart(git_dir, a, b);
}

/// Splitting on a separator takes a text apart where it was put together.
proof fn lemma_split_join(a: Seq<char>, b: Seq<char>, sep: char)
    ensures
        split_on(a.push(sep) + b, sep) == split_on(a, sep) + split_on(b, sep),
    decreases b.len(),
{
    let left = split_on(a, sep);
    if b.len() == 0 {
        assert(a.push(sep) + b =~= a.push(sep));
        assert(a.push(sep).drop_last() =~= a);
        assert(left.push(Seq::<char>::empty()) =~= left + split_on(b, sep));
    } else {
        let c = b.last();
        let right = split_on(b.drop_last(), sep);
        lemma_split_join(a, b.drop_last(), sep);
        lemma_split_on_some(b.drop_last(), sep);
        assert((a.push(sep) + b).drop_last() =~= a.push(sep) + b.drop_last());
        assert((a.push(sep) + b).last() == c);
        if c == sep {
            assert((left + right).push(Seq::<char>::empty()) =~= left + right.push(
                Seq::<char>::empty(),
            ));
        } else {
            assert((left + right).drop_last() =~= left + right.drop_last());
            assert((left + right.drop_last()).push(right.last().push(c)) =~= left
                + right.drop_last().push(right.last().push(c)));
        }
    }
}

/// A walk can be made in two parts.
proof fn lemma_walk_on(at: Seq<Seq<char>>, first: Seq<Seq<char>>, second: Seq<Seq<char>>)
    ensures
        walk(at, first + second) == walk(walk(at, first), second),
    decreases second.len(),
{
    if second.len() == 0 {
        assert(first + second =~= first);
    } else {
        lemma_walk_on(at, first, second.drop_last());
        assert((first + second).drop_last() =~= first + second.drop_last());
        assert((first + second).last() == second.last());
    }
}

/// A chain that stays below where it starts keeps the names down to there.
proof fn lemma_walk_down(at: Seq<Seq<char>>, parts: Seq<Seq<char>>)
    requires
        stays_below(parts),
    ensures
        at.is_prefix_of(walk(at, parts)),
        walk(at, parts).len() == at.len() + depth(parts),
    decreases parts.len(),
{
    if parts.len() > 0 {
        let head = parts.drop_last();
        assert forall|k: int| 0 <= k <= head.len() implies #[trigger] depth(head.take(k)) >= 0 by {
            assert(head.take(k) =~= parts.take(k));
            assert(depth(parts.take(k)) >= 0);
        }
        lemma_walk_down(at, head);
        assert(parts.take(parts.len() as int) =~= parts);
        assert(depth(parts.take(parts.len() as int)) >= 0);
        assert(at =~= walk(at, parts).subrange(0, at.len() as int)) by {
            let here = walk(at, head);
            assert forall|i: int| 0 <= i < at.len() implies at[i] == here[i] by {
                assert(here.subrange(0, at.len() as int)[i] == here[i]);
            }
        }
    }
}

/// The baseline file of a consumer whose name is no absolute path has a path
/// below that of the store, and its place is in the store where the name does
/// not lead out of it, as `../x` does. A plain name, one without a separator,
/// never does: its file lies directly in the store.
pub proof fn law_store_holds_the_baselines(git_dir: Seq<char>, consumer: Seq<char>)
    requires
        !absolute(consumer),
    ensures
        state_file(git_dir, consumer) == store_dir(git_dir).push('/') + (consumer + ".json"@),
        stays_below(split_on(consumer + ".json"@, '/')) ==> in_store(git_dir, consumer),
        !consumer.contains('/') ==> in_store(git_dir, consumer) && place(
            state_file(git_dir, consumer),
        ) == place(store_dir(git_dir)).push(consumer + ".json"@),
{
    reveal_strlit(".json");
    reveal_strlit(".");
    reveal_strlit("..");
    let store = store_dir(git_dir);
    let name = consumer + ".json"@;
    let parts = split_on(name, '/');
    lemma_store_dir(git_dir);
    assert(name[0] == if consumer.len() > 0 {
        consumer[0]
    } else {
        ".json"@[0]
    });
    lemma_split_join(store, name, '/');
    lemma_walk_on(Seq::<Seq<char>>::empty(), split_on(store, '/'), parts);
    if stays_below(parts) {
        lemma_walk_down(place(store), parts);
    }
    if !consumer.contains('/') {
        if name.contains('/') {
            let k = name.index_of('/');
            if k < consumer.len() {
                assert(consumer[k] == '/');
            }
        }
        let none = Seq::<char>::empty();
        lemma_split_append(none, name, '/');
        assert(none + name =~= name);
        assert(parts =~= seq![name]);
        assert(parts.drop_last() =~= Seq::<Seq<char>>::empty());
        assert(walk(place(store), parts.drop_last()) == place(store));
        assert(walk(place(store), parts) == step(place(store), name));
        assert(place(store) =~= place(store).push(name).subrange(0, place(store).len() as int));
    }
}

/// Two consumers with different plain names keep their baselines in different
/// places.
pub proof fn law_plain_names_apart(git_dir: Seq<char>, a: Seq<char>, b: Seq<char>)
    requires
        !a.contains('/'),
        !b.contains('/'),
        a != b,
    ensures
        place(state_file(git_dir, a)) != place(state_file(git_dir, b)),
{
    lemma_plain_is_relative(a);
    lemma_plain_is_relative(b);
    law_store_holds_the_baselines(git_dir, a);
    law_store_holds_the_baselines(git_dir, b);
    let x = a + ".json"@;
    let y = b + ".json"@;
    assert(place(state_file(git_dir, a)).last() == x);
    assert(place(state_file(git_dir, b)).last() == y);
    if x == y {
        assert(a.len() == b.len());
        assert(x.take(a.len() as int) =~= a);
        assert(y.take(b.len() as int) =~= b);
    }
}

proof fn lemma_plain_is_relative(name: Seq<char>)
    requires
        !name.contains('/'),
    ensures
        !absolute(name),
{
    if absolute(name) {
        assert(name.contains(name[0]));
    }
}

/// The baselines of a repository by the place of their file.
pub type Store = Map<Seq<Seq<char>>, Map<Seq<char>, Seq<char>>>;

/// The baseline of a consumer; one without a file has marked nothing.
pub open spec fn baseline_of(files: Store, git_dir: Seq<char>, consumer: Seq<char>) -> Map<
    Seq<char>,
    Seq<char>,
> {
    match files.get(place(state_file(git_dir, consumer))) {
        Some(clean) => clean,
        None => Map::<Seq<char>, Seq<char>>::empty(),
    }
}

/// A mark by one consumer leaves the list of every consumer whose baseline is
/// kept in another place as it was, whatever the text of their paths: the mark
/// writes the file at the place of `a`.
pub proof fn law_mark_leaves_other_places(
    git_dir: Seq<char>,
    a: Seq<char>,
    b: Seq<char>,
    files: Store,
    saved: Map<Seq<char>, Seq<char>>,
    current: Map<Seq<char>, Seq<char>>,
)
    requires
        place(state_file(git_dir, a)) != place(state_file(git_dir, b)),
    ensures
        ({
            let after = files.insert(place(state_file(git_dir, a)), saved);
            &&& baseline_of(after, git_dir, a) == saved
            &&& baseline_of(after, git_dir, b) == baseline_of(files, git_dir, b)
            &&& changed_set(current, baseline_of(after, git_dir, b)) == changed_set(
                current,
                baseline_of(files, git_dir, b),
            )
        }),
{
}

/// The files that are left after a removal.
pub open spec fn after_removal(files: Store, removal: Removal) -> Store {
    match removal {
        Removal::Tree(dir) => Map::new(
            |at: Seq<Seq<char>>| files.contains_key(at) && !place(dir@).is_prefix_of(at),
            |at: Seq<Seq<char>>| files[at],
        ),
        Removal::File(path) => files.remove(place(path@)),
    }
}

/// A reset of all forgets the baseline of every consumer that is kept in the
/// store, so that each of them is given every file that has a hash. It leaves
/// any other as it was, and a second one changes nothing.
pub proof fn law_reset_of_all(
    git_dir: Seq<char>,
    removal: Removal,
    files: Store,
    consumer: Seq<char>,
    current: Map<Seq<char>, Seq<char>>,
)
    requires
        removal matches Removal::Tree(path) && path@ == store_dir(git_dir),
    ensures
        ({
            let after = after_removal(files, removal);
            let clean = baseline_of(after, git_dir, consumer);
            &&& in_store(git_dir, consumer) ==> clean == Map::<Seq<char>, Seq<char>>::empty()
                && changed_set(current, clean) == current.dom()
            &&& !in_store(git_dir, consumer) ==> clean == baseline_of(files, git_dir, consumer)
            &&& after_removal(after, removal) == after
        }),
{
    let after = after_removal(files, removal);
    law_reset_lists_everything(current);
    assert(after_removal(after, removal) =~= after);
}

/// A reset of one consumer forgets its baseline, so that it is given every file
/// that has a hash. It leaves the baseline of every consumer with another place
/// as it was, and a second one changes nothing.
pub proof fn law_reset_of_one(
    git_dir: Seq<char>,
    consumer: Seq<char>,
    removal: Removal,
    files: Store,
    other: Seq<char>,
    current: Map<Seq<char>, Seq<char>>,
)
    requires
        removal matches Removal::File(path) && path@ == state_file(git_dir, consumer),
    ensures
        ({
            let after = after_removal(files, removal);
            let clean = baseline_of(after, git_dir, consumer);
            &&& clean == Map::<Seq<char>, Seq<char>>::empty()
            &&& changed_set(current, clean) == current.dom()
            &&& place(state_file(git_dir, other)) != place(state_file(git_dir, consumer))
                ==> baseline_of(after, git_dir, other) == baseline_of(files, git_dir, other)
            &&& after_removal(after, removal) == after
        }),
{
    let after = after_removal(files, removal);
    law_reset_lists_everything(current);
    assert(after_removal(after, removal) =~= after);
}

/// How many steps a run still has before it exits, at most.
pub open spec fn steps_left(each: bool, files: Seq<Seq<char>>, past: History) -> int {
    let commands = if each {
        files.len() as int
    } else {
        1
    };
    (commands - past.codes.len()) + (if past.marked is None {
        1int
    } else {
        0int
    }) + (if past.noticed {
        0int
    } else {
        1int
    })
}

/// Every run ends: whatever comes of a step, fewer are left after it, and a run
/// that has none left exits.
pub proof fn law_run_ends(
    each: bool,
    files: Seq<Seq<char>>,
    past: History,
    code: Option<i32>,
    count: nat,
)
    requires
        past.codes.len() <= (if each {
            files.len()
        } else {
            1
        }),
    ensures
        ({
            let left = steps_left(each, files, past);
            &&& left >= 0
            &&& match next_step(each, files, past) {
                Step::Spawn(_) => 0 <= steps_left(
                    each,
                    files,
                    History { codes: past.codes.push(code), ..past },
                ) < left,
                Step::Mark(_) => 0 <= steps_left(
                    each,
                    files,
                    History { marked: Some(count), ..past },
                ) < left,
                Step::Notice(_) => 0 <= steps_left(
                    each,
                    files,
                    History { noticed: true, ..past },
                ) < left,
                Step::Exit(_) => true,
            }
        }),
{
}

/// With nothing changed, a run never starts the command and exits with zero.
pub proof fn law_run_of_nothing(each: bool, past: History)
    ensures
        next_step(each, Seq::<Seq<char>>::empty(), past) == Step::Exit(0),
{
}

/// A batch is marked as a whole, and only after the command exited with zero.
pub proof fn law_batch_marks_on_success(files: Seq<Seq<char>>, past: History)
    requires
        next_step(false, files, past) is Mark,
    ensures
        next_step(false, files, past) == Step::Mark(files),
        past.codes.len() > 0,
        past.codes[0] == Some(0i32),
{
}

/// A batch exits as its command does; where a signal killed the command, with
/// one.
pub proof fn law_batch_exits_as_the_command(files: Seq<Seq<char>>, past: History)
    requires
        files.len() > 0,
        next_step(false, files, past) is Exit,
    ensures
        past.codes.len() > 0,
        next_step(false, files, past) == Step::Exit(
            match past.codes[0] {
                Some(code) => code,
                None => 1,
            },
        ),
{
}

/// A run per file starts the command on each file in turn, and does nothing
/// else before it has ended on all of them.
pub proof fn law_each_runs_every_file(files: Seq<Seq<char>>, past: History)
    ensures
        past.codes.len() < files.len() ==> next_step(true, files, past) == Step::Spawn(
            seq![files[past.codes.len() as int]],
        ),
        past.codes.len() >= files.len() ==> next_step(true, files, past) !is Spawn,
{
}

/// A run per file marks exactly the files whose command exited with zero.
pub proof fn law_each_marks_what_passed(files: Seq<Seq<char>>, past: History)
    requires
        past.codes.len() <= files.len(),
        next_step(true, files, past) is Mark,
    ensures
        past.codes.len() == files.len(),
        next_step(true, files, past) == Step::Mark(passing(files, past.codes)),
        forall|p: Seq<char>| #[trigger]
            passing(files, past.codes).contains(p) <==> exists|i: int|
                0 <= i < files.len() && #[trigger] files[i] == p && past.codes[i] == Some(0i32),
{
    assert forall|p: Seq<char>| #[trigger]
        passing(files, past.codes).contains(p) <==> exists|i: int|
            0 <= i < files.len() && #[trigger] files[i] == p && past.codes[i] == Some(0i32) by {
        lemma_passing(files, past.codes, p);
    }
}

proof fn lemma_passing(files: Seq<Seq<char>>, codes: Seq<Option<i32>>, p: Seq<char>)
    requires
        codes.len() <= files.len(),
    ensures
        passing(files, codes).contains(p) <==> exists|i: int|
            0 <= i < codes.len() && #[trigger] files[i] == p && codes[i] == Some(0i32),
        passing(files, codes).len() <= codes.len(),
        passing(files, codes).len() == codes.len() <==> forall|i: int|
            0 <= i < codes.len() ==> #[trigger] codes[i] == Some(0i32),
    decreases codes.len(),
{
    if codes.len() > 0 {
        let head = codes.drop_last();
        let n = codes.len() - 1;
        lemma_passing(files, head, p);
        let some = passing(files, head);
        assert(codes[n] == codes.last());
        if codes.last() == Some(0i32) {
            assert(passing(files, codes) == some.push(files[n]));
            assert(some.push(files[n])[some.len() as int] == files[n]);
            if some.contains(p) {
                let k = some.index_of(p);
                assert(some.push(files[n])[k] == p);
            }
            if some.push(files[n]).contains(p) && p != files[n] {
                let k = some.push(files[n]).index_of(p);
                assert(some[k] == p);
            }
        }
        assert forall|i: int| 0 <= i < n implies #[trigger] head[i] == codes[i] by {}
        if some.len() == head.len() && codes.last() == Some(0i32) {
            assert forall|i: int| 0 <= i < codes.len() implies #[trigger] codes[i] == Some(
                0i32,
            ) by {
                if i < n {
                    assert(head[i] == codes[i]);
                }
            }
        }
        if passing(files, codes).contains(p) {
            if some.contains(p) {
                let i = choose|i: int|
                    0 <= i < head.len() && #[trigger] files[i] == p && head[i] == Some(0i32);
                assert(files[i] == p && codes[i] == Some(0i32));
            } else {
                assert(files[n] == p && codes[n] == Some(0i32));
            }
        }
        if exists|i: int| 0 <= i < codes.len() && #[trigger] files[i] == p && codes[i] == Some(0i32) {
            let i = choose|i: int|
                0 <= i < codes.len() && #[trigger] files[i] == p && codes[i] == Some(0i32);
            if i < n {
                assert(files[i] == p && head[i] == Some(0i32));
            }
        }
    }
}

/// A run per file exits with zero exactly where every file passed.
pub proof fn law_each_exit_code(files: Seq<Seq<char>>, past: History)
    requires
        files.len() > 0,
        past.codes.len() == files.len(),
        past.noticed,
    ensures
        next_step(true, files, past) == Step::Exit(
            if forall|i: int| 0 <= i < files.len() ==> #[trigger] past.codes[i] == Some(0i32) {
                0
            } else {
                1
            },
        ),
{
    lemma_passing(files, past.codes, Seq::<char>::empty());
}

} // verus!
