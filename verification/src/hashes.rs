//! Sorted collections keyed by repository-relative path: a set of paths, and a
//! map from path to content hash.

use crate::order::{
    before, compare, lemma_before_irreflexive, lemma_before_transitive,
    lemma_strictly_sorted_distinct, strictly_sorted, Place,
};
use crate::text::texts;
use vstd::prelude::*;

verus! {

/// Binary search: whether `key` is in the sorted vector, and the index where it
/// is or belongs.
fn find(keys: &Vec<String>, key: &str) -> (r: (bool, usize))
    requires
        strictly_sorted(texts(keys@)),
    ensures
        r.1 <= keys@.len(),
        r.0 ==> r.1 < keys@.len() && keys@[r.1 as int]@ == key@,
        r.0 <==> texts(keys@).contains(key@),
        forall|j: int| 0 <= j < r.1 ==> before(#[trigger] texts(keys@)[j], key@),
        !r.0 ==> forall|j: int|
            r.1 <= j < keys@.len() ==> before(key@, #[trigger] texts(keys@)[j]),
{
    let ghost all = texts(keys@);
    let mut lo: usize = 0;
    let mut hi: usize = keys.len();
    while lo < hi
        invariant
            all == texts(keys@),
            strictly_sorted(all),
            lo <= hi <= keys@.len(),
            forall|j: int| 0 <= j < lo ==> before(#[trigger] all[j], key@),
            forall|j: int| hi <= j < all.len() ==> before(key@, #[trigger] all[j]),
        decreases hi - lo,
    {
        let mid: usize = lo + (hi - lo) / 2;
        assert(all[mid as int] == keys@[mid as int]@);
        match compare(keys[mid].as_str(), key) {
            Place::Same => {
                proof {
                    assert(all[mid as int] == key@);
                    assert(all.contains(key@));
                    assert forall|j: int| 0 <= j < mid implies before(#[trigger] all[j], key@) by {
                        assert(before(all[j], all[mid as int]));
                    }
                }
                return (true, mid);
            },
            Place::Before => {
                proof {
                    assert forall|j: int| 0 <= j < mid + 1 implies before(
                        #[trigger] all[j],
                        key@,
                    ) by {
                        if j < mid {
                            assert(before(all[j], all[mid as int]));
                            lemma_before_transitive(all[j], all[mid as int], key@);
                        }
                    }
                }
                lo = mid + 1;
            },
            Place::After => {
                proof {
                    assert forall|j: int| mid <= j < all.len() implies before(
                        key@,
                        #[trigger] all[j],
                    ) by {
                        if mid < j {
                            assert(before(all[mid as int], all[j]));
                            lemma_before_transitive(key@, all[mid as int], all[j]);
                        }
                    }
                }
                hi = mid;
            },
        }
    }
    proof {
        if all.contains(key@) {
            let k = all.index_of(key@);
            lemma_before_irreflexive(key@);
            assert(all[k] == key@);
            assert(false);
        }
    }
    (false, lo)
}

/// Inserting where the search points keeps the order and adds the key.
proof fn lemma_insert_sorted(all: Seq<Seq<char>>, at: int, key: Seq<char>)
    requires
        strictly_sorted(all),
        0 <= at <= all.len(),
        forall|j: int| 0 <= j < at ==> before(#[trigger] all[j], key),
        forall|j: int| at <= j < all.len() ==> before(key, #[trigger] all[j]),
    ensures
        strictly_sorted(all.insert(at, key)),
        forall|p: Seq<char>| #[trigger]
            all.insert(at, key).contains(p) <==> p == key || all.contains(p),
{
    let next = all.insert(at, key);
    assert forall|i: int, j: int| 0 <= i < j < next.len() implies before(
        #[trigger] next[i],
        #[trigger] next[j],
    ) by {
        let a = if i < at {
            i
        } else {
            i - 1
        };
        let b = if j < at {
            j
        } else {
            j - 1
        };
        if i != at {
            assert(next[i] == all[a]);
        }
        if j != at {
            assert(next[j] == all[b]);
        }
    }
    assert forall|p: Seq<char>| #[trigger] next.contains(p) <==> p == key || all.contains(p) by {
        if next.contains(p) {
            let k = next.index_of(p);
            if k < at {
                assert(all[k] == p);
            } else if k > at {
                assert(all[k - 1] == p);
            }
        }
        if p == key {
            assert(next[at] == p);
        }
        if all.contains(p) {
            let k = all.index_of(p);
            if k < at {
                assert(next[k] == p);
            } else {
                assert(next[k + 1] == p);
            }
        }
    }
}

/// Dropping one element keeps the order and loses that element alone.
proof fn lemma_remove_sorted(all: Seq<Seq<char>>, at: int)
    requires
        strictly_sorted(all),
        0 <= at < all.len(),
    ensures
        strictly_sorted(all.remove(at)),
        forall|p: Seq<char>| #[trigger]
            all.remove(at).contains(p) <==> p != all[at] && all.contains(p),
{
    let next = all.remove(at);
    lemma_strictly_sorted_distinct(all);
    assert forall|i: int, j: int| 0 <= i < j < next.len() implies before(
        #[trigger] next[i],
        #[trigger] next[j],
    ) by {
        let a = if i < at {
            i
        } else {
            i + 1
        };
        let b = if j < at {
            j
        } else {
            j + 1
        };
        assert(next[i] == all[a]);
        assert(next[j] == all[b]);
    }
    assert forall|p: Seq<char>| #[trigger] next.contains(p) <==> p != all[at] && all.contains(
        p,
    ) by {
        if next.contains(p) {
            let k = next.index_of(p);
            let o = if k < at {
                k
            } else {
                k + 1
            };
            assert(all[o] == p);
        }
        if p != all[at] && all.contains(p) {
            let k = all.index_of(p);
            if k < at {
                assert(next[k] == p);
            } else {
                assert(next[k - 1] == p);
            }
        }
    }
}

/// A set of paths, kept in byte order.
pub struct PathSet {
    items: Vec<String>,
}

impl PathSet {
    /// The paths in byte order.
    pub closed spec fn listing(&self) -> Seq<Seq<char>> {
        texts(self.items@)
    }

    /// The paths are strictly sorted.
    pub open spec fn wf(&self) -> bool {
        strictly_sorted(self.listing())
    }

    /// The empty set.
    pub fn new() -> (r: Self)
        ensures
            r.wf(),
            r.listing() == Seq::<Seq<char>>::empty(),
    {
        let r = PathSet { items: Vec::new() };
        assert(r.listing() =~= Seq::<Seq<char>>::empty());
        r
    }

    /// Whether `path` is in the set.
    pub fn contains(&self, path: &str) -> (r: bool)
        requires
            self.wf(),
        ensures
            r <==> self.listing().contains(path@),
    {
        find(&self.items, path).0
    }

    /// Adds `path`; adding one that is there changes nothing.
    pub fn insert(&mut self, path: String)
        requires
            old(self).wf(),
        ensures
            final(self).wf(),
            forall|p: Seq<char>| #[trigger]
                final(self).listing().contains(p) <==> p == path@ || old(
                    self,
                ).listing().contains(p),
    {
        let (found, at) = find(&self.items, path.as_str());
        if !found {
            let ghost all = texts(self.items@);
            let ghost items = self.items@;
            proof {
                lemma_insert_sorted(all, at as int, path@);
                assert(texts(items.insert(at as int, path)) =~= all.insert(at as int, path@));
            }
            self.items.insert(at, path);
        }
    }

    /// Hands the paths out in byte order.
    pub fn into_vec(self) -> (r: Vec<String>)
        ensures
            texts(r@) == self.listing(),
    {
        self.items
    }
}

/// A map from path to content hash, kept in byte order of the paths.
pub struct Hashes {
    paths: Vec<String>,
    hashes: Vec<String>,
}

impl View for Hashes {
    type V = Map<Seq<char>, Seq<char>>;

    closed spec fn view(&self) -> Map<Seq<char>, Seq<char>> {
        Map::new(
            |p: Seq<char>| texts(self.paths@).contains(p),
            |p: Seq<char>| texts(self.hashes@)[texts(self.paths@).index_of(p)],
        )
    }
}

impl Hashes {
    /// The paths of the map in byte order.
    pub closed spec fn listing(&self) -> Seq<Seq<char>> {
        texts(self.paths@)
    }

    /// One hash per path, and the paths strictly sorted.
    pub closed spec fn wf(&self) -> bool {
        &&& self.paths@.len() == self.hashes@.len()
        &&& strictly_sorted(self.listing())
    }

    /// The listing of a well-formed map is its domain in byte order.
    pub proof fn lemma_listing(&self)
        requires
            self.wf(),
        ensures
            strictly_sorted(self.listing()),
            forall|p: Seq<char>| #[trigger]
                self@.contains_key(p) <==> self.listing().contains(p),
            self@.dom().finite(),
            self@.len() == self.listing().len(),
    {
        lemma_strictly_sorted_distinct(self.listing());
        self.listing().unique_seq_to_set();
        vstd::seq_lib::seq_to_set_is_finite(self.listing());
        assert(self@.dom() =~= self.listing().to_set());
    }

    /// At each index the parallel vectors hold an entry of the map.
    proof fn lemma_at(&self, i: int)
        requires
            self.wf(),
            0 <= i < self.paths@.len(),
        ensures
            self@.contains_key(self.paths@[i]@),
            self@[self.paths@[i]@] == self.hashes@[i]@,
    {
        let all = texts(self.paths@);
        lemma_strictly_sorted_distinct(all);
        assert(all[i] == self.paths@[i]@);
        assert(all.contains(all[i]));
        let k = all.index_of(all[i]);
        assert(k == i);
        assert(texts(self.hashes@)[i] == self.hashes@[i]@);
    }

    /// The empty map.
    pub fn new() -> (r: Self)
        ensures
            r.wf(),
            r@ == Map::<Seq<char>, Seq<char>>::empty(),
    {
        let r = Hashes { paths: Vec::new(), hashes: Vec::new() };
        assert(r@ =~= Map::<Seq<char>, Seq<char>>::empty());
        r
    }

    /// How many paths the map holds.
    pub fn len(&self) -> (r: usize)
        requires
            self.wf(),
        ensures
            r == self@.len(),
            r == self.listing().len(),
    {
        proof {
            self.lemma_listing();
        }
        self.paths.len()
    }

    /// The path at index `i` in byte order.
    pub fn path_at(&self, i: usize) -> (r: &String)
        requires
            self.wf(),
            i < self.listing().len(),
        ensures
            r@ == self.listing()[i as int],
    {
        &self.paths[i]
    }

    /// The hash of the path at index `i` in byte order.
    pub fn hash_at(&self, i: usize) -> (r: &String)
        requires
            self.wf(),
            i < self.listing().len(),
        ensures
            self@.get(self.listing()[i as int]) == Some(r@),
    {
        proof {
            self.lemma_at(i as int);
            assert(self.listing()[i as int] == self.paths@[i as int]@);
        }
        &self.hashes[i]
    }

    /// The hash recorded for `path`.
    pub fn get(&self, path: &str) -> (r: Option<&String>)
        requires
            self.wf(),
        ensures
            (match r {
                Some(h) => Some(h@),
                None => None,
            }) == self@.get(path@),
    {
        let (found, at) = find(&self.paths, path);
        if found {
            proof {
                self.lemma_at(at as int);
            }
            Some(&self.hashes[at])
        } else {
            None
        }
    }

    /// Records `hash` for `path`, in place of what was recorded before.
    pub fn insert(&mut self, path: String, hash: String)
        requires
            old(self).wf(),
        ensures
            final(self).wf(),
            final(self)@ == old(self)@.insert(path@, hash@),
    {
        let ghost was = *self;
        let (found, at) = find(&self.paths, path.as_str());
        if found {
            self.hashes.set(at, hash);
            proof {
                assert(self@ =~= was@.insert(path@, hash@)) by {
                    assert forall|p: Seq<char>| #[trigger] self@.contains_key(p) && p
                        != path@ implies self@[p] == was@[p] by {
                        let k = texts(was.paths@).index_of(p);
                        assert(texts(was.paths@)[k] == p);
                        assert(k != at);
                        assert(texts(self.hashes@)[k] == texts(was.hashes@)[k]);
                    }
                    self.lemma_at(at as int);
                }
            }
        } else {
            let ghost all = texts(self.paths@);
            proof {
                lemma_insert_sorted(all, at as int, path@);
                assert(texts(was.paths@.insert(at as int, path)) =~= all.insert(at as int, path@));
            }
            self.paths.insert(at, path);
            self.hashes.insert(at, hash);
            proof {
                assert(self.wf());
                assert(self@ =~= was@.insert(path@, hash@)) by {
                    assert forall|p: Seq<char>| #[trigger] self@.contains_key(p) && p
                        != path@ implies self@[p] == was@[p] by {
                        let k = all.index_of(p);
                        assert(all[k] == p);
                        was.lemma_at(k);
                        if k < at {
                            self.lemma_at(k);
                            assert(self.paths@[k] == was.paths@[k]);
                        } else {
                            self.lemma_at(k + 1);
                            assert(self.paths@[k + 1] == was.paths@[k]);
                        }
                    }
                    self.lemma_at(at as int);
                    assert(self.paths@[at as int]@ == path@);
                }
            }
        }
    }

    /// Forgets `path`.
    pub fn remove(&mut self, path: &str)
        requires
            old(self).wf(),
        ensures
            final(self).wf(),
            final(self)@ == old(self)@.remove(path@),
    {
        let ghost was = *self;
        let (found, at) = find(&self.paths, path);
        if found {
            let ghost all = texts(self.paths@);
            proof {
                lemma_remove_sorted(all, at as int);
                assert(texts(was.paths@.remove(at as int)) =~= all.remove(at as int));
            }
            self.paths.remove(at);
            self.hashes.remove(at);
            proof {
                assert(self.wf());
                assert(self@ =~= was@.remove(path@)) by {
                    assert forall|p: Seq<char>| #[trigger] self@.contains_key(p) implies self@[p]
                        == was@[p] by {
                        let k = all.index_of(p);
                        assert(all[k] == p);
                        was.lemma_at(k);
                        if k < at {
                            self.lemma_at(k);
                            assert(self.paths@[k] == was.paths@[k]);
                        } else {
                            self.lemma_at(k - 1);
                            assert(self.paths@[k - 1] == was.paths@[k]);
                        }
                    }
                }
            }
        } else {
            assert(self@ =~= was@.remove(path@));
        }
    }
}

} // verus!
