//! The repository, its consumers, and the baselines that make "changed" mean
//! something different to each of them.
//!
//! A baseline maps repository-relative paths to content hashes. Git supplies
//! the candidates and nothing else: what counts as changed is decided by
//! hashing, so a file touched and reverted settles.

use crate::git::{decoded, git_line, git_z};
use crate::hashes::{Hashes, PathSet};
use crate::layout::{
    consumer_names, join_path, named_consumers, path_join, state_file, store_dir, temp_file,
    temp_path,
};
use crate::order::{before, lemma_strictly_sorted_distinct, sorted, strictly_sorted};
use crate::text::{copy_all, fields, texts, trimmed};
use vstd::prelude::*;

verus! {

/// What a consumer has processed: the hash of each file when it was marked.
pub struct State {
    pub clean: Hashes,
}

impl State {
    /// The map of hashes is well-formed.
    pub open spec fn wf(&self) -> bool {
        self.clean.wf()
    }

    /// The state of a consumer that has marked nothing.
    pub fn new() -> (r: Self)
        ensures
            r.wf(),
            r.clean@ == Map::<Seq<char>, Seq<char>>::empty(),
    {
        State { clean: Hashes::new() }
    }

    /// The state that a state file holds, path by path; a file that is missing
    /// or cannot be read (`None`) leaves the consumer with nothing marked. Of
    /// two entries for one path the later one counts.
    pub fn load(entries: Option<Vec<(String, String)>>) -> (r: Self)
        ensures
            r.wf(),
            r.clean@ == (match entries {
                Some(list) => entry_map(entry_texts(list@)),
                None => Map::<Seq<char>, Seq<char>>::empty(),
            }),
    {
        let mut clean = Hashes::new();
        if let Some(list) = entries {
            let ghost all = entry_texts(list@);
            let mut i: usize = 0;
            assert(all.take(0) =~= Seq::<(Seq<char>, Seq<char>)>::empty());
            while i < list.len()
                invariant
                    all == entry_texts(list@),
                    i <= list@.len(),
                    clean.wf(),
                    clean@ == entry_map(all.take(i as int)),
                decreases list@.len() - i,
            {
                proof {
                    assert(all.take(i + 1).drop_last() =~= all.take(i as int));
                    assert(all.take(i + 1).last() == (list@[i as int].0@, list@[i as int].1@));
                }
                clean.insert(list[i].0.clone(), list[i].1.clone());
                i = i + 1;
            }
            assert(all.take(all.len() as int) =~= all);
        }
        State { clean }
    }

    /// What a state file is to hold, path by path in byte order. Loading it
    /// gives the state back.
    pub fn entries(&self) -> (r: Vec<(String, String)>)
        requires
            self.wf(),
        ensures
            entry_map(entry_texts(r@)) == self.clean@,
            strictly_sorted(entry_texts(r@).map_values(|e: (Seq<char>, Seq<char>)| e.0)),
    {
        let ghost listing = self.clean.listing();
        let n: usize = self.clean.len();
        let mut r: Vec<(String, String)> = Vec::new();
        let mut i: usize = 0;
        proof {
            self.clean.lemma_listing();
            assert(entry_texts(r@) =~= Seq::<(Seq<char>, Seq<char>)>::empty());
        }
        while i < n
            invariant
                self.wf(),
                listing == self.clean.listing(),
                strictly_sorted(listing),
                n == listing.len(),
                i <= n,
                r@.len() == i,
                forall|j: int| 0 <= j < i ==> (#[trigger] r@[j]).0@ == listing[j],
                forall|p: Seq<char>| #[trigger]
                    entry_map(entry_texts(r@)).get(p) == (if listing.take(i as int).contains(p) {
                        self.clean@.get(p)
                    } else {
                        None
                    }),
            decreases n - i,
        {
            let ghost was = entry_texts(r@);
            let path = self.clean.path_at(i).clone();
            let hash = self.clean.hash_at(i).clone();
            r.push((path, hash));
            proof {
                assert(entry_texts(r@) =~= was.push((path@, hash@)));
                assert(entry_texts(r@).drop_last() =~= was);
                assert(listing.take(i + 1) =~= listing.take(i as int).push(listing[i as int]));
                assert forall|p: Seq<char>| #[trigger]
                    entry_map(entry_texts(r@)).get(p) == (if listing.take(i + 1).contains(p) {
                        self.clean@.get(p)
                    } else {
                        None
                    }) by {
                    lemma_push_contains(listing.take(i as int), listing[i as int], p);
                    assert(entry_map(was).get(p) == (if listing.take(i as int).contains(p) {
                        self.clean@.get(p)
                    } else {
                        None
                    }));
                }
            }
            i = i + 1;
        }
        proof {
            let all = entry_map(entry_texts(r@));
            assert(listing.take(n as int) =~= listing);
            assert forall|p: Seq<char>| #[trigger] all.get(p) == self.clean@.get(p) by {
                assert(self.clean@.contains_key(p) <==> listing.contains(p));
            }
            lemma_same_entries(all, self.clean@);
            assert(entry_texts(r@).map_values(|e: (Seq<char>, Seq<char>)| e.0) =~= listing);
        }
        r
    }
}

/// The entries of a state file as plain values.
pub open spec fn entry_texts(entries: Seq<(String, String)>) -> Seq<(Seq<char>, Seq<char>)> {
    entries.map_values(|e: (String, String)| (e.0@, e.1@))
}

/// The map that a list of entries describes: of two entries for one path the
/// later one counts.
pub open spec fn entry_map(entries: Seq<(Seq<char>, Seq<char>)>) -> Map<Seq<char>, Seq<char>>
    decreases entries.len(),
{
    if entries.len() == 0 {
        Map::<Seq<char>, Seq<char>>::empty()
    } else {
        entry_map(entries.drop_last()).insert(entries.last().0, entries.last().1)
    }
}

/// The hash of one file at the time it was read; `None` for a file that has no
/// fingerprint or could not be read.
pub struct Reading {
    pub path: String,
    pub hash: Option<String>,
}

/// A path with the hash that was read for it.
pub type Read = (Seq<char>, Option<Seq<char>>);

impl View for Reading {
    type V = Read;

    open spec fn view(&self) -> Read {
        (
            self.path@,
            match self.hash {
                Some(hash) => Some(hash@),
                None => None,
            },
        )
    }
}

/// The readings as plain values.
pub open spec fn reads(readings: Seq<Reading>) -> Seq<Read> {
    readings.map_values(|r: Reading| r@)
}

/// The paths that were read.
pub open spec fn read_paths(rs: Seq<Read>) -> Seq<Seq<char>> {
    rs.map_values(|r: Read| r.0)
}

/// The hash that the latest successful reading gives `path`.
pub open spec fn hash_now(rs: Seq<Read>, path: Seq<char>) -> Option<Seq<char>>
    decreases rs.len(),
{
    if rs.len() == 0 {
        None
    } else if rs.last().0 == path && rs.last().1 is Some {
        rs.last().1
    } else {
        hash_now(rs.drop_last(), path)
    }
}

/// The files that have a hash, with it.
pub open spec fn current_map(rs: Seq<Read>) -> Map<Seq<char>, Seq<char>> {
    Map::new(|p: Seq<char>| hash_now(rs, p) is Some, |p: Seq<char>| hash_now(rs, p)->0)
}

/// `path` has contents that `clean` does not record.
pub open spec fn differs(
    current: Map<Seq<char>, Seq<char>>,
    clean: Map<Seq<char>, Seq<char>>,
    path: Seq<char>,
) -> bool {
    current.contains_key(path) && clean.get(path) != current.get(path)
}

/// The paths whose contents differ from the baseline `clean`.
pub open spec fn changed_set(
    current: Map<Seq<char>, Seq<char>>,
    clean: Map<Seq<char>, Seq<char>>,
) -> Set<Seq<char>> {
    Set::new(|p: Seq<char>| differs(current, clean, p))
}

/// `list` holds the members of `set`, once each and in byte order.
pub open spec fn lists(list: Seq<Seq<char>>, set: Set<Seq<char>>) -> bool {
    strictly_sorted(list) && list.to_set() == set
}

/// What a mark does to the entry of `path`, before entries of other files are
/// dropped: `Some(Some(hash))` records, `Some(None)` forgets, `None` leaves the
/// entry. A mark of the whole set passes over files without a hash; a mark of
/// named files forgets them.
pub open spec fn recorded(rs: Seq<Read>, whole: bool, path: Seq<char>) -> Option<
    Option<Seq<char>>,
>
    decreases rs.len(),
{
    if rs.len() == 0 {
        None
    } else if rs.last().0 == path && (rs.last().1 is Some || !whole) {
        Some(rs.last().1)
    } else {
        recorded(rs.drop_last(), whole, path)
    }
}

/// The entry of `path` once the readings are recorded.
pub open spec fn baseline(
    clean: Map<Seq<char>, Seq<char>>,
    rs: Seq<Read>,
    whole: bool,
    path: Seq<char>,
) -> Option<Seq<char>> {
    match recorded(rs, whole, path) {
        Some(entry) => entry,
        None => clean.get(path),
    }
}

/// The entry of `path` after a mark: what was recorded, and of the other
/// entries those of current candidates.
pub open spec fn after_mark(
    clean: Map<Seq<char>, Seq<char>>,
    candidates: Seq<Seq<char>>,
    rs: Seq<Read>,
    whole: bool,
    path: Seq<char>,
) -> Option<Seq<char>> {
    match recorded(rs, whole, path) {
        Some(entry) => entry,
        None => if candidates.contains(path) {
            clean.get(path)
        } else {
            None
        },
    }
}

/// The baseline after a mark.
pub open spec fn marked_map(
    clean: Map<Seq<char>, Seq<char>>,
    candidates: Seq<Seq<char>>,
    rs: Seq<Read>,
    whole: bool,
) -> Map<Seq<char>, Seq<char>> {
    Map::new(
        |p: Seq<char>| after_mark(clean, candidates, rs, whole, p) is Some,
        |p: Seq<char>| after_mark(clean, candidates, rs, whole, p)->0,
    )
}

/// How many readings moved the baseline of their file: recorded a hash that
/// was not recorded already.
pub open spec fn moved(clean: Map<Seq<char>, Seq<char>>, rs: Seq<Read>, whole: bool) -> nat
    decreases rs.len(),
{
    if rs.len() == 0 {
        0
    } else {
        let head = rs.drop_last();
        let last = rs.last();
        moved(clean, head, whole) + if last.1 is Some && baseline(clean, head, whole, last.0)
            != last.1 {
            1nat
        } else {
            0nat
        }
    }
}

/// Counts for one consumer.
pub struct ConsumerStatus {
    pub consumer: String,
    /// How many files the baseline of the consumer records.
    pub tracked_count: usize,
    /// How many files differ from that baseline.
    pub changed: usize,
    /// Unix seconds of the last mark; `None` for a consumer without a state file.
    pub last_marked: Option<u64>,
}

/// What a mark leaves to be saved, and its count.
pub struct Marked {
    /// The file to save the state to.
    pub path: String,
    pub state: State,
    /// How many baselines moved.
    pub marked: usize,
}

/// A repository as one consumer sees it.
pub struct Repo {
    /// The top directory of the working tree, where git is run.
    pub toplevel: String,
    pub git_dir: String,
    /// The consumer whose baseline is read and advanced.
    pub consumer: String,
}

impl Repo {
    /// The repository that git found, from its answers to the two queries for
    /// its place. An error tells which query failed; the first one comes first.
    pub fn discover(
        consumer: &str,
        toplevel: Result<Vec<u8>, String>,
        git_dir: Result<Vec<u8>, String>,
    ) -> (r: Result<Self, String>)
        ensures
            r is Ok <==> toplevel is Ok && git_dir is Ok,
            r matches Ok(repo) ==> {
                &&& repo.toplevel@ == trimmed(decoded(toplevel->Ok_0@))
                &&& repo.git_dir@ == trimmed(decoded(git_dir->Ok_0@))
                &&& repo.consumer@ == consumer@
            },
            r matches Err(message) ==> message@ == "not inside a git repository: "@ + (match (
                toplevel,
                git_dir,
            ) {
                (Err(cause), _) => cause@,
                (_, Err(cause)) => cause@,
                _ => Seq::<char>::empty(),
            }),
    {
        let mut message = "not inside a git repository: ".to_owned();
        match toplevel {
            Err(cause) => {
                message.append(cause.as_str());
                Err(message)
            },
            Ok(top) => match git_dir {
                Err(cause) => {
                    message.append(cause.as_str());
                    Err(message)
                },
                Ok(dir) => Ok(
                    Repo {
                        toplevel: git_line(top.as_slice()),
                        git_dir: git_line(dir.as_slice()),
                        consumer: consumer.to_owned(),
                    },
                ),
            },
        }
    }

    /// The directory that holds all baselines.
    pub fn store_path(&self) -> (r: String)
        ensures
            r@ == store_dir(self.git_dir@),
    {
        join_path(self.git_dir.as_str(), "glean")
    }

    /// The file that holds the baseline of `consumer`.
    pub fn state_path(&self, consumer: &str) -> (r: String)
        ensures
            r@ == state_file(self.git_dir@, consumer@),
    {
        let mut name = consumer.to_owned();
        name.append(".json");
        join_path(self.store_path().as_str(), name.as_str())
    }

    /// The file that a save of the baseline of `consumer` writes first, to
    /// rename it over the baseline file: a crash cannot leave a torn one.
    pub fn temp_path(&self, consumer: &str) -> (r: String)
        ensures
            r@ == temp_file(state_file(self.git_dir@, consumer@)),
    {
        temp_path(self.state_path(consumer).as_str())
    }

    /// The place of a repository-relative path on disk.
    pub fn file_path(&self, repo_rel: &str) -> (r: String)
        ensures
            r@ == path_join(self.toplevel@, repo_rel@),
    {
        join_path(self.toplevel.as_str(), repo_rel)
    }

    /// The files that may have changed, from git's lists of the tracked files
    /// that differ from the base and of the untracked ones: each path once, in
    /// byte order.
    pub fn candidates(diff: &[u8], others: &[u8]) -> (r: Vec<String>)
        ensures
            lists(
                texts(r@),
                fields(decoded(diff@), '\0').to_set().union(fields(decoded(others@), '\0').to_set()),
            ),
    {
        let first = git_z(diff);
        let second = git_z(others);
        let r = union(first, second).into_vec();
        assert(texts(r@).to_set() =~= texts(first@).to_set().union(texts(second@).to_set()));
        r
    }

    /// The consumers that have a baseline, in byte order, from the names of the
    /// files in the store. The temporary file of a save that is under way is no
    /// baseline.
    pub fn consumers(files: &Vec<String>) -> (r: Vec<String>)
        ensures
            sorted(texts(r@)),
            texts(r@).to_multiset() == named_consumers(texts(files@)).to_multiset(),
    {
        consumer_names(files)
    }

    /// The hash of each file that has one.
    pub fn current_hashes(readings: &Vec<Reading>) -> (r: Hashes)
        ensures
            r.wf(),
            r@ == current_map(reads(readings@)),
    {
        let ghost rs = reads(readings@);
        let mut r = Hashes::new();
        let mut i: usize = 0;
        assert(r@ =~= current_map(rs.take(0)));
        while i < readings.len()
            invariant
                rs == reads(readings@),
                i <= readings@.len(),
                r.wf(),
                r@ == current_map(rs.take(i as int)),
            decreases readings@.len() - i,
        {
            proof {
                assert(rs.take(i + 1).drop_last() =~= rs.take(i as int));
                assert(rs.take(i + 1).last() == readings@[i as int]@);
            }
            if let Some(hash) = &readings[i].hash {
                r.insert(readings[i].path.clone(), hash.clone());
            }
            assert(r@ =~= current_map(rs.take(i + 1)));
            i = i + 1;
        }
        assert(rs.take(rs.len() as int) =~= rs);
        r
    }

    /// The paths of `current` whose hash is not the one in `state`.
    pub fn changed_paths(current: &Hashes, state: &State) -> (r: Vec<String>)
        requires
            current.wf(),
            state.wf(),
        ensures
            lists(texts(r@), changed_set(current@, state.clean@)),
    {
        let ghost all = current.listing();
        let mut r: Vec<String> = Vec::new();
        let n: usize = current.len();
        let mut i: usize = 0;
        proof {
            current.lemma_listing();
            assert(texts(r@) =~= Seq::<Seq<char>>::empty());
        }
        while i < n
            invariant
                current.wf(),
                state.wf(),
                all == current.listing(),
                strictly_sorted(all),
                n == all.len(),
                i <= n,
                strictly_sorted(texts(r@)),
                forall|p: Seq<char>| #[trigger]
                    texts(r@).contains(p) <==> all.take(i as int).contains(p) && state.clean@.get(p)
                        != current@.get(p),
            decreases n - i,
        {
            let path = current.path_at(i);
            let hash = current.hash_at(i);
            let ghost was = texts(r@);
            let known = match state.clean.get(path.as_str()) {
                Some(clean) => *clean == *hash,
                None => false,
            };
            proof {
                assert(all.take(i + 1) =~= all.take(i as int).push(all[i as int]));
            }
            if !known {
                proof {
                    assert forall|j: int| 0 <= j < was.len() implies before(
                        #[trigger] was[j],
                        path@,
                    ) by {
                        assert(was.contains(was[j]));
                        let k = all.take(i as int).index_of(was[j]);
                        assert(all[k] == was[j]);
                        assert(before(all[k], all[i as int]));
                    }
                }
                r.push(path.clone());
                assert(texts(r@) =~= was.push(path@));
            }
            proof {
                assert forall|p: Seq<char>| #[trigger]
                    texts(r@).contains(p) <==> all.take(i + 1).contains(p) && state.clean@.get(p)
                        != current@.get(p) by {
                    lemma_push_contains(all.take(i as int), all[i as int], p);
                    lemma_push_contains(was, path@, p);
                    assert(was.contains(p) <==> all.take(i as int).contains(p) && state.clean@.get(
                        p,
                    ) != current@.get(p));
                }
            }
            i = i + 1;
        }
        proof {
            assert(all.take(n as int) =~= all);
            assert(texts(r@).to_set() =~= changed_set(current@, state.clean@)) by {
                assert forall|p: Seq<char>| #[trigger]
                    texts(r@).to_set().contains(p) <==> changed_set(
                        current@,
                        state.clean@,
                    ).contains(p) by {
                    assert(texts(r@).contains(p) <==> all.contains(p) && state.clean@.get(p)
                        != current@.get(p));
                    assert(current@.contains_key(p) <==> all.contains(p));
                }
            }
        }
        r
    }

    /// The paths whose contents differ from the baseline, in byte order, from a
    /// reading of each candidate.
    pub fn changed(readings: &Vec<Reading>, state: &State) -> (r: Vec<String>)
        requires
            state.wf(),
        ensures
            lists(texts(r@), changed_set(current_map(reads(readings@)), state.clean@)),
    {
        let current = Self::current_hashes(readings);
        Self::changed_paths(&current, state)
    }

    /// The files to read for a mark of `paths`: these, or every candidate where
    /// none is named.
    pub fn targets(paths: &Vec<String>, candidates: &Vec<String>) -> (r: Vec<String>)
        ensures
            texts(r@) == texts(
                if paths@.len() == 0 {
                    candidates@
                } else {
                    paths@
                },
            ),
    {
        if paths.len() == 0 {
            copy_all(candidates)
        } else {
            copy_all(paths)
        }
    }

    /// Records files as processed, from a reading of each. Empty `paths` marks
    /// the whole candidate set. Entries of files that are neither candidates
    /// nor just marked are dropped.
    pub fn mark_paths(
        &self,
        state: State,
        candidates: &Vec<String>,
        paths: &Vec<String>,
        readings: &Vec<Reading>,
    ) -> (r: Marked)
        requires
            state.wf(),
            read_paths(reads(readings@)) == texts(
                if paths@.len() == 0 {
                    candidates@
                } else {
                    paths@
                },
            ),
        ensures
            r.path@ == state_file(self.git_dir@, self.consumer@),
            r.state.wf(),
            r.state.clean@ == marked_map(
                state.clean@,
                texts(candidates@),
                reads(readings@),
                paths@.len() == 0,
            ),
            r.marked == moved(state.clean@, reads(readings@), paths@.len() == 0),
    {
        let whole = paths.len() == 0;
        let ghost start = state.clean@;
        let ghost rs = reads(readings@);
        let mut clean = state.clean;
        let mut just_marked = PathSet::new();
        let mut marked: usize = 0;
        let mut i: usize = 0;
        while i < readings.len()
            invariant
                rs == reads(readings@),
                i <= readings@.len(),
                clean.wf(),
                just_marked.wf(),
                marked <= i,
                marked == moved(start, rs.take(i as int), whole),
                forall|p: Seq<char>| #[trigger]
                    clean@.get(p) == baseline(start, rs.take(i as int), whole, p),
                forall|p: Seq<char>| #[trigger]
                    just_marked.listing().contains(p) <==> hash_now(rs.take(i as int), p) is Some,
            decreases readings@.len() - i,
        {
            let ghost head = rs.take(i as int);
            let ghost was = clean@;
            let ghost just_was = just_marked.listing();
            proof {
                assert(rs.take(i + 1).drop_last() =~= head);
                assert(rs.take(i + 1).last() == readings@[i as int]@);
            }
            let path = &readings[i].path;
            assert(was.get(path@) == baseline(start, head, whole, path@));
            match &readings[i].hash {
                Some(hash) => {
                    just_marked.insert(path.clone());
                    let known = match clean.get(path.as_str()) {
                        Some(old_hash) => *old_hash == *hash,
                        None => false,
                    };
                    if !known {
                        clean.insert(path.clone(), hash.clone());
                        marked = marked + 1;
                    }
                },
                None => {
                    if !whole {
                        clean.remove(path.as_str());
                    }
                },
            }
            proof {
                assert forall|p: Seq<char>| #[trigger]
                    clean@.get(p) == baseline(start, rs.take(i + 1), whole, p) by {
                    assert(was.get(p) == baseline(start, head, whole, p));
                }
                assert forall|p: Seq<char>| #[trigger]
                    just_marked.listing().contains(p) <==> hash_now(rs.take(i + 1), p) is Some by {
                    assert(just_was.contains(p) <==> hash_now(head, p) is Some);
                }
            }
            i = i + 1;
        }
        assert(rs.take(rs.len() as int) =~= rs);
        let candidate_set = path_set(candidates);
        let kept = prune(&clean, &candidate_set, &just_marked);
        proof {
            let want = marked_map(start, texts(candidates@), rs, whole);
            assert forall|p: Seq<char>| #[trigger] kept@.get(p) == want.get(p) by {
                lemma_recorded_or_hash(rs, whole, p);
                assert(clean@.get(p) == baseline(start, rs, whole, p));
                assert(just_marked.listing().contains(p) <==> hash_now(rs, p) is Some);
                assert(candidate_set.listing().contains(p) <==> texts(candidates@).contains(p));
            }
            lemma_same_entries(kept@, want);
        }
        Marked { path: self.state_path(self.consumer.as_str()), state: State { clean: kept }, marked }
    }

    /// The counts for each named consumer, from its state and the time of its
    /// last mark, and a reading of each candidate.
    pub fn status_for(
        names: &Vec<String>,
        states: &Vec<State>,
        stamps: &Vec<Option<u64>>,
        readings: &Vec<Reading>,
    ) -> (r: Vec<ConsumerStatus>)
        requires
            states@.len() == names@.len(),
            stamps@.len() == names@.len(),
            forall|i: int| 0 <= i < states@.len() ==> (#[trigger] states@[i]).wf(),
        ensures
            r@.len() == names@.len(),
            forall|i: int|
                0 <= i < names@.len() ==> {
                    &&& (#[trigger] r@[i]).consumer@ == names@[i]@
                    &&& r@[i].tracked_count == states@[i].clean@.len()
                    &&& r@[i].changed == changed_set(
                        current_map(reads(readings@)),
                        states@[i].clean@,
                    ).len()
                    &&& r@[i].last_marked == stamps@[i]
                },
    {
        let current = Self::current_hashes(readings);
        let mut r: Vec<ConsumerStatus> = Vec::new();
        let mut i: usize = 0;
        while i < names.len()
            invariant
                current.wf(),
                current@ == current_map(reads(readings@)),
                states@.len() == names@.len(),
                stamps@.len() == names@.len(),
                forall|j: int| 0 <= j < states@.len() ==> (#[trigger] states@[j]).wf(),
                i <= names@.len(),
                r@.len() == i,
                forall|j: int|
                    0 <= j < i ==> {
                        &&& (#[trigger] r@[j]).consumer@ == names@[j]@
                        &&& r@[j].tracked_count == states@[j].clean@.len()
                        &&& r@[j].changed == changed_set(
                            current_map(reads(readings@)),
                            states@[j].clean@,
                        ).len()
                        &&& r@[j].last_marked == stamps@[j]
                    },
            decreases names@.len() - i,
        {
            let state = &states[i];
            let changed = Self::changed_paths(&current, state);
            proof {
                lemma_lists_len(texts(changed@), changed_set(current@, state.clean@));
            }
            r.push(
                ConsumerStatus {
                    consumer: names[i].clone(),
                    tracked_count: state.clean.len(),
                    changed: changed.len(),
                    last_marked: stamps[i],
                },
            );
            i = i + 1;
        }
        r
    }
}

/// A listing is as long as its set is large.
pub proof fn lemma_lists_len(list: Seq<Seq<char>>, set: Set<Seq<char>>)
    requires
        lists(list, set),
    ensures
        list.len() == set.len(),
        set.finite(),
{
    lemma_strictly_sorted_distinct(list);
    list.unique_seq_to_set();
    vstd::seq_lib::seq_to_set_is_finite(list);
}

/// Maps with the same entry for every path are one map.
pub proof fn lemma_same_entries(a: Map<Seq<char>, Seq<char>>, b: Map<Seq<char>, Seq<char>>)
    requires
        forall|p: Seq<char>| #[trigger] a.get(p) == b.get(p),
    ensures
        a == b,
{
    assert forall|p: Seq<char>| #[trigger] a.contains_key(p) == b.contains_key(p) by {
        assert(a.get(p) == b.get(p));
    }
    assert forall|p: Seq<char>| #[trigger] a.contains_key(p) implies a[p] == b[p] by {
        assert(a.get(p) == b.get(p));
    }
    assert(a =~= b);
}

/// A mark that does nothing to an entry read no hash for it, and one that
/// records a hash did read one.
pub proof fn lemma_recorded_or_hash(rs: Seq<Read>, whole: bool, path: Seq<char>)
    ensures
        recorded(rs, whole, path) is None ==> hash_now(rs, path) is None,
        recorded(rs, whole, path) matches Some(Some(_)) ==> hash_now(rs, path) is Some,
    decreases rs.len(),
{
    if rs.len() > 0 {
        lemma_recorded_or_hash(rs.drop_last(), whole, path);
    }
}

/// Keeps the entries of the paths in either set.
fn prune(clean: &Hashes, candidates: &PathSet, just_marked: &PathSet) -> (r: Hashes)
    requires
        clean.wf(),
        candidates.wf(),
        just_marked.wf(),
    ensures
        r.wf(),
        forall|p: Seq<char>| #[trigger]
            r@.get(p) == (if candidates.listing().contains(p) || just_marked.listing().contains(p) {
                clean@.get(p)
            } else {
                None
            }),
{
    let ghost all = clean.listing();
    let mut r = Hashes::new();
    let n: usize = clean.len();
    let mut i: usize = 0;
    proof {
        clean.lemma_listing();
    }
    while i < n
        invariant
            clean.wf(),
            candidates.wf(),
            just_marked.wf(),
            r.wf(),
            all == clean.listing(),
            n == all.len(),
            i <= n,
            forall|p: Seq<char>| #[trigger]
                r@.get(p) == (if all.take(i as int).contains(p) && (candidates.listing().contains(p)
                    || just_marked.listing().contains(p)) {
                    clean@.get(p)
                } else {
                    None
                }),
        decreases n - i,
    {
        let path = clean.path_at(i);
        let hash = clean.hash_at(i);
        let ghost was = r@;
        if candidates.contains(path.as_str()) || just_marked.contains(path.as_str()) {
            r.insert(path.clone(), hash.clone());
        }
        proof {
            assert(all.take(i + 1) =~= all.take(i as int).push(all[i as int]));
            assert forall|p: Seq<char>| #[trigger]
                r@.get(p) == (if all.take(i + 1).contains(p) && (candidates.listing().contains(p)
                    || just_marked.listing().contains(p)) {
                    clean@.get(p)
                } else {
                    None
                }) by {
                assert(was.get(p) is Some ==> all.take(i as int).contains(p));
                lemma_push_contains(all.take(i as int), all[i as int], p);
            }
        }
        i = i + 1;
    }
    proof {
        assert(all.take(n as int) =~= all);
        assert forall|p: Seq<char>| #[trigger]
            r@.get(p) == (if candidates.listing().contains(p) || just_marked.listing().contains(p) {
                clean@.get(p)
            } else {
                None
            }) by {
            assert(clean@.contains_key(p) <==> all.contains(p));
        }
    }
    r
}

proof fn lemma_push_contains(s: Seq<Seq<char>>, x: Seq<char>, p: Seq<char>)
    ensures
        s.push(x).contains(p) <==> p == x || s.contains(p),
{
    let t = s.push(x);
    if t.contains(p) {
        let k = t.index_of(p);
        if k < s.len() {
            assert(s[k] == p);
        }
    }
    if p == x {
        assert(t[s.len() as int] == p);
    }
    if s.contains(p) {
        let k = s.index_of(p);
        assert(t[k] == p);
    }
}

/// All paths of both lists, once each and in byte order.
fn union(first: Vec<String>, second: Vec<String>) -> (r: PathSet)
    ensures
        r.wf(),
        forall|p: Seq<char>| #[trigger]
            r.listing().contains(p) <==> texts(first@).contains(p) || texts(second@).contains(p),
{
    let mut r = path_set(&first);
    let mut i: usize = 0;
    let ghost start = r.listing();
    let ghost all = texts(second@);
    while i < second.len()
        invariant
            all == texts(second@),
            i <= second@.len(),
            r.wf(),
            forall|p: Seq<char>| #[trigger]
                r.listing().contains(p) <==> start.contains(p) || all.take(i as int).contains(p),
        decreases second@.len() - i,
    {
        let ghost was = r.listing();
        r.insert(second[i].clone());
        proof {
            assert(all.take(i + 1) =~= all.take(i as int).push(all[i as int]));
            assert forall|p: Seq<char>| #[trigger]
                r.listing().contains(p) <==> start.contains(p) || all.take(i + 1).contains(p) by {
                assert(was.contains(p) <==> start.contains(p) || all.take(i as int).contains(p));
                lemma_push_contains(all.take(i as int), all[i as int], p);
            }
        }
        i = i + 1;
    }
    assert(all.take(all.len() as int) =~= all);
    r
}

/// The set of the given paths.
fn path_set(paths: &Vec<String>) -> (r: PathSet)
    ensures
        r.wf(),
        forall|p: Seq<char>| #[trigger] r.listing().contains(p) <==> texts(paths@).contains(p),
{
    let mut r = PathSet::new();
    let mut i: usize = 0;
    let ghost all = texts(paths@);
    assert(all.take(0) =~= Seq::<Seq<char>>::empty());
    while i < paths.len()
        invariant
            all == texts(paths@),
            i <= paths@.len(),
            r.wf(),
            forall|p: Seq<char>| #[trigger]
                r.listing().contains(p) <==> all.take(i as int).contains(p),
        decreases paths@.len() - i,
    {
        let ghost was = r.listing();
        r.insert(paths[i].clone());
        proof {
            assert(all.take(i + 1) =~= all.take(i as int).push(all[i as int]));
            assert forall|p: Seq<char>| #[trigger]
                r.listing().contains(p) <==> all.take(i + 1).contains(p) by {
                assert(was.contains(p) <==> all.take(i as int).contains(p));
                lemma_push_contains(all.take(i as int), all[i as int], p);
            }
        }
        i = i + 1;
    }
    assert(all.take(all.len() as int) =~= all);
    r
}

} // verus!
