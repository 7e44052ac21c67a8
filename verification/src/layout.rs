//! Where the baselines are stored: one file per consumer, below the git
//! directory. Paths are `/`-separated, as git writes them on every platform and
//! as Unix systems read them: a backslash is part of a name.

use crate::order::{
    before, compare, lemma_before_asymmetric, lemma_before_total, lemma_before_transitive, same,
    sorted, Place,
};
use crate::text::{from_chars, lemma_split_on_some, split, split_on, texts, to_chars};
use vstd::prelude::*;

verus! {

/// `part` seen from `base`: an absolute `part` stands alone, any other is
/// appended with a separator where `base` does not end in one.
pub open spec fn path_join(base: Seq<char>, part: Seq<char>) -> Seq<char> {
    if part.len() > 0 && part[0] == '/' {
        part
    } else if base.len() == 0 || base.last() == '/' {
        base + part
    } else {
        base.push('/') + part
    }
}

/// Appends `part` to `base` as a path component.
pub fn join_path(base: &str, part: &str) -> (r: String)
    ensures
        r@ == path_join(base@, part@),
{
    let base_chars = to_chars(base);
    let part_chars = to_chars(part);
    if part_chars.len() > 0 && part_chars[0] == '/' {
        return part.to_owned();
    }
    let mut r = base.to_owned();
    if base_chars.len() > 0 && base_chars[base_chars.len() - 1] != '/' {
        r.push('/');
    }
    r.append(part);
    r
}

/// The directory that holds all baselines of a repository.
pub open spec fn store_dir(git_dir: Seq<char>) -> Seq<char> {
    path_join(git_dir, "glean"@)
}

/// The file that holds the baseline of `consumer`.
pub open spec fn state_file(git_dir: Seq<char>, consumer: Seq<char>) -> Seq<char> {
    path_join(store_dir(git_dir), consumer + ".json"@)
}

/// A path that starts at the root.
pub open spec fn absolute(path: Seq<char>) -> bool {
    path.len() > 0 && path[0] == '/'
}

/// Where one more path component leads from the place `at`, which is given by
/// the names on the way down to it. The root is its own parent.
pub open spec fn step(at: Seq<Seq<char>>, part: Seq<char>) -> Seq<Seq<char>> {
    if part.len() == 0 || part == "."@ {
        at
    } else if part != ".."@ {
        at.push(part)
    } else if at.len() > 0 {
        at.drop_last()
    } else {
        at
    }
}

/// Where a chain of path components leads from the place `at`.
pub open spec fn walk(at: Seq<Seq<char>>, parts: Seq<Seq<char>>) -> Seq<Seq<char>>
    decreases parts.len(),
{
    if parts.len() == 0 {
        at
    } else {
        step(walk(at, parts.drop_last()), parts.last())
    }
}

/// The place that a path leads to from the root, symbolic links aside: paths
/// that differ as text, such as `/a/b` and `/a/./b`, can lead to one place.
pub open spec fn place(path: Seq<char>) -> Seq<Seq<char>> {
    walk(Seq::<Seq<char>>::empty(), split_on(path, '/'))
}

/// How far down a chain of path components leads, seen from where it starts.
pub open spec fn depth(parts: Seq<Seq<char>>) -> int
    decreases parts.len(),
{
    if parts.len() == 0 {
        0
    } else {
        depth(parts.drop_last()) + (if parts.last().len() == 0 || parts.last() == "."@ {
            0int
        } else if parts.last() == ".."@ {
            -1int
        } else {
            1int
        })
    }
}

/// A chain of path components that never leads above where it starts.
pub open spec fn stays_below(parts: Seq<Seq<char>>) -> bool {
    forall|k: int| 0 <= k <= parts.len() ==> #[trigger] depth(parts.take(k)) >= 0
}

/// The baseline of `consumer` is kept inside the store.
pub open spec fn in_store(git_dir: Seq<char>, consumer: Seq<char>) -> bool {
    place(store_dir(git_dir)).is_prefix_of(place(state_file(git_dir, consumer)))
}

/// The consumer whose baseline a file of this name holds.
pub open spec fn consumer_of(file: Seq<char>) -> Option<Seq<char>> {
    if ".json"@.is_suffix_of(file) {
        Some(file.take(file.len() - ".json"@.len()))
    } else {
        None
    }
}

/// Reads the consumer off the name of a baseline file. The temporary file of a
/// save that is under way has no consumer.
pub fn consumer_name(file: &str) -> (r: Option<String>)
    ensures
        (match r {
            Some(name) => Some(name@),
            None => None,
        }) == consumer_of(file@),
{
    let chars = to_chars(file);
    let suffix = to_chars(".json");
    if chars.len() < suffix.len() {
        return None;
    }
    let cut: usize = chars.len() - suffix.len();
    let mut i: usize = 0;
    while i < suffix.len()
        invariant
            chars@ == file@,
            suffix@ == ".json"@,
            cut + suffix.len() == chars.len(),
            i <= suffix@.len(),
            forall|j: int| 0 <= j < i ==> chars@[cut + j] == #[trigger] suffix@[j],
        decreases suffix@.len() - i,
    {
        if chars[cut + i] != suffix[i] {
            assert(!suffix@.is_suffix_of(file@)) by {
                if suffix@.is_suffix_of(file@) {
                    assert(suffix@[i as int] == file@.subrange(
                        cut as int,
                        file@.len() as int,
                    )[i as int]);
                }
            }
            return None;
        }
        i = i + 1;
    }
    assert(suffix@ =~= file@.subrange(cut as int, file@.len() as int));
    assert(chars@.subrange(0, cut as int) =~= file@.take(cut as int));
    Some(from_chars(&chars, 0, cut))
}

/// The temporary file through which the file `target` is replaced: its
/// extension becomes `json.tmp`. A name that is all extension has none to
/// replace.
pub open spec fn temp_file(target: Seq<char>) -> Seq<char> {
    if split_on(target, '/').last() == ".json"@ {
        target + ".json.tmp"@
    } else {
        target + ".tmp"@
    }
}

/// The sibling of the baseline file `target` that a save writes first.
pub(crate) fn temp_path(target: &str) -> (r: String)
    ensures
        r@ == temp_file(target@),
{
    proof {
        lemma_split_on_some(target@, '/');
    }
    let parts = split(target, '/');
    let last = parts[parts.len() - 1].clone();
    assert(texts(parts@).last() == last@);
    let mut r = target.to_owned();
    if same(last.as_str(), ".json") {
        r.append(".json.tmp");
    } else {
        r.append(".tmp");
    }
    r
}

/// The consumers of the files that are baselines.
pub open spec fn named_consumers(files: Seq<Seq<char>>) -> Seq<Seq<char>> {
    files.filter_map(|file: Seq<char>| consumer_of(file))
}

/// Puts `name` behind all names that do not stand after it.
fn insert_sorted(names: &mut Vec<String>, name: String)
    requires
        sorted(texts(old(names)@)),
    ensures
        sorted(texts(final(names)@)),
        texts(final(names)@).to_multiset() == texts(old(names)@).to_multiset().insert(name@),
{
    let ghost all = texts(names@);
    let mut at: usize = names.len();
    while at > 0 && compare(name.as_str(), names[at - 1].as_str()) == Place::Before
        invariant
            all == texts(names@),
            sorted(all),
            at <= names@.len(),
            forall|j: int| at <= j < all.len() ==> before(name@, #[trigger] all[j]),
        decreases at,
    {
        assert(all[at - 1] == names@[at - 1]@);
        at = at - 1;
    }
    proof {
        if at > 0 {
            assert(all[at - 1] == names@[at - 1]@);
        }
        let next = all.insert(at as int, name@);
        assert forall|i: int, j: int| 0 <= i < j < next.len() implies !before(
            #[trigger] next[j],
            #[trigger] next[i],
        ) by {
            if j == at {
                if before(name@, all[i]) && i < at - 1 {
                    assert(!before(all[at - 1], all[i]));
                    lemma_not_before_chain(all[i], all[at - 1], name@);
                }
            } else if i == at {
                lemma_before_asymmetric(name@, all[j - 1]);
            } else {
                let a = if i < at {
                    i
                } else {
                    i - 1
                };
                let b = if j < at {
                    j
                } else {
                    j - 1
                };
                assert(next[i] == all[a] && next[j] == all[b]);
            }
        }
        assert(texts(names@.insert(at as int, name)) =~= next);
        vstd::seq_lib::to_multiset_insert(all, at as int, name@);
    }
    names.insert(at, name);
}

/// "Not after" is transitive.
proof fn lemma_not_before_chain(a: Seq<char>, b: Seq<char>, c: Seq<char>)
    requires
        !before(b, a),
        !before(c, b),
    ensures
        !before(c, a),
{
    if before(c, a) {
        lemma_before_total(a, b);
        if a != b {
            lemma_before_transitive(c, a, b);
        }
    }
}

/// The consumers that have a baseline, in byte order, from the names of the
/// files in the store.
pub(crate) fn consumer_names(files: &Vec<String>) -> (r: Vec<String>)
    ensures
        sorted(texts(r@)),
        texts(r@).to_multiset() == named_consumers(texts(files@)).to_multiset(),
{
    let ghost all = texts(files@);
    let ghost pick = |file: Seq<char>| consumer_of(file);
    let mut r: Vec<String> = Vec::new();
    let mut i: usize = 0;
    assert(all.take(0).filter_map(pick) =~= Seq::<Seq<char>>::empty());
    assert(texts(r@) =~= Seq::<Seq<char>>::empty());
    while i < files.len()
        invariant
            all == texts(files@),
            pick == (|file: Seq<char>| consumer_of(file)),
            i <= files@.len(),
            sorted(texts(r@)),
            texts(r@).to_multiset() == all.take(i as int).filter_map(pick).to_multiset(),
        decreases files@.len() - i,
    {
        let ghost done = all.take(i as int).filter_map(pick);
        proof {
            all.lemma_filter_map_take_succ(pick, i as int);
            assert(all[i as int] == files@[i as int]@);
        }
        match consumer_name(files[i].as_str()) {
            Some(name) => {
                proof {
                    assert(pick(all[i as int]) == Some(name@));
                    vstd::seq_lib::to_multiset_build(done, name@);
                    assert(all.take(i + 1).filter_map(pick) =~= done.push(name@));
                }
                insert_sorted(&mut r, name);
            },
            None => {
                proof {
                    assert(pick(all[i as int]) is None);
                    assert(all.take(i + 1).filter_map(pick) =~= done);
                }
            },
        }
        i = i + 1;
    }
    assert(all.take(all.len() as int) =~= all);
    r
}

} // verus!
