//! Which files are fingerprinted, and the fingerprint of their contents.
//!
//! Lockfiles and binary files have no fingerprint, so a consumer only sees
//! reviewable text. Contents arrive in chunks of any size, so a large file
//! never has to be in memory at once.
//!
//! Paths are `/`-separated, as git writes them on every platform and as Unix
//! systems read them: a backslash is part of a name.

use crate::order::same;
use crate::text::{hex16, hex_text, split, split_on, texts};
use std::collections::hash_map::DefaultHasher;
use std::hash::Hasher;
use vstd::prelude::*;
use vstd::slice::slice_subrange;
use vstd::std_specs::hash::*;

verus! {

/// How many bytes at the start of a file are searched for a NUL.
pub const SNIFF: usize = 8192;

/// How many bytes of the rest go to the hasher at once.
pub const BLOCK: usize = 65536;

/// Whether a path component names something: not empty, and not the current
/// directory.
pub open spec fn naming() -> spec_fn(Seq<char>) -> bool {
    |part: Seq<char>| part.len() > 0 && part != "."@
}

/// The name of the file that a path leads to; none for a path without a
/// component or one that ends in the parent directory.
pub open spec fn name_of(path: Seq<char>) -> Option<Seq<char>> {
    let parts = split_on(path, '/').filter(naming());
    if parts.len() == 0 || parts.last() == ".."@ {
        None
    } else {
        Some(parts.last())
    }
}

/// The last component of `path` that names something.
pub fn file_name(path: &str) -> (r: Option<String>)
    ensures
        (match r {
            Some(name) => Some(name@),
            None => None,
        }) == name_of(path@),
{
    let parts = split(path, '/');
    let ghost all = texts(parts@);
    let mut n: usize = parts.len();
    assert(all.take(all.len() as int) =~= all);
    while n > 0
        invariant
            n <= parts@.len(),
            all == texts(parts@),
            all == split_on(path@, '/'),
            all.filter(naming()) == all.take(n as int).filter(naming()),
        decreases n,
    {
        let part = parts[n - 1].clone();
        proof {
            assert(all.take(n as int) =~= all.take(n - 1).push(part@));
            all.take(n - 1).lemma_filter_push(part@, naming());
        }
        if !part.as_str().is_empty() && !same(part.as_str(), ".") {
            if same(part.as_str(), "..") {
                return None;
            }
            return Some(part);
        }
        n = n - 1;
    }
    assert(all.take(0).filter(naming()).len() == 0) by {
        reveal(Seq::filter);
    }
    None
}

/// The names of the lockfiles that package managers write.
pub open spec fn lockfile(name: Seq<char>) -> bool {
    ||| name == "Cargo.lock"@
    ||| name == "package-lock.json"@
    ||| name == "yarn.lock"@
    ||| name == "pnpm-lock.yaml"@
    ||| name == "bun.lockb"@
    ||| name == "go.sum"@
    ||| name == "Gemfile.lock"@
    ||| name == "poetry.lock"@
    ||| name == "Pipfile.lock"@
    ||| name == "composer.lock"@
    ||| name == "flake.lock"@
}

/// Whether `name` is the name of a lockfile.
pub fn is_lockfile(name: &str) -> (r: bool)
    ensures
        r == lockfile(name@),
{
    same(name, "Cargo.lock") || same(name, "package-lock.json") || same(name, "yarn.lock")
        || same(name, "pnpm-lock.yaml") || same(name, "bun.lockb") || same(name, "go.sum")
        || same(name, "Gemfile.lock") || same(name, "poetry.lock") || same(name, "Pipfile.lock")
        || same(name, "composer.lock") || same(name, "flake.lock")
}

/// Whether the file at `path` is fingerprinted at all.
pub open spec fn reviewable(path: Seq<char>) -> bool {
    match name_of(path) {
        Some(name) => !lockfile(name),
        None => false,
    }
}

/// The bytes that are searched for a NUL.
pub open spec fn window(contents: Seq<u8>) -> Seq<u8> {
    if contents.len() <= SNIFF {
        contents
    } else {
        contents.take(SNIFF as int)
    }
}

/// `rest` cut into blocks, the last of which may be short.
pub open spec fn blocks(rest: Seq<u8>) -> Seq<Seq<u8>>
    decreases rest.len(),
{
    if rest.len() == 0 {
        Seq::<Seq<u8>>::empty()
    } else if rest.len() < BLOCK {
        seq![rest]
    } else {
        seq![rest.take(BLOCK as int)] + blocks(rest.skip(BLOCK as int))
    }
}

/// What the hasher is given for a file: the window, then the rest in blocks.
pub open spec fn writes(contents: Seq<u8>) -> Seq<Seq<u8>> {
    seq![window(contents)] + blocks(contents.skip(window(contents).len() as int))
}

/// The fingerprint of a file with these contents; none for a binary file.
pub open spec fn content_hash(contents: Seq<u8>) -> Option<Seq<char>> {
    if window(contents).contains(0u8) {
        None
    } else {
        Some(hex_text(DefaultHasher::spec_finish(writes(contents)) as nat, 16))
    }
}

/// The fingerprint of the file at `path`; `contents` is `None` where the file
/// cannot be read.
pub open spec fn file_hash(path: Seq<char>, contents: Option<Seq<u8>>) -> Option<Seq<char>> {
    match contents {
        Some(bytes) => if reviewable(path) {
            content_hash(bytes)
        } else {
            None
        },
        None => None,
    }
}

/// All blocks are full.
spec fn full(done: Seq<Seq<u8>>) -> bool {
    forall|i: int| 0 <= i < done.len() ==> (#[trigger] done[i]).len() == BLOCK
}

/// Full blocks stay as they are when more follows.
proof fn lemma_blocks(done: Seq<Seq<u8>>, rest: Seq<u8>)
    requires
        full(done),
    ensures
        blocks(done.flatten() + rest) == done + blocks(rest),
    decreases done.len(),
{
    if done.len() == 0 {
        assert(done.flatten() + rest =~= rest);
        assert(done + blocks(rest) =~= blocks(rest));
    } else {
        let tail = done.drop_first();
        lemma_blocks(tail, rest);
        let all = done.flatten() + rest;
        assert(done.flatten() == done.first() + tail.flatten());
        assert(done[0].len() == BLOCK);
        assert(all.take(BLOCK as int) =~= done[0]);
        assert(all.skip(BLOCK as int) =~= tail.flatten() + rest);
        assert(seq![done[0]] + (tail + blocks(rest)) =~= done + blocks(rest));
    }
}

/// Full blocks hold a multiple of the block length.
proof fn lemma_full_len(done: Seq<Seq<u8>>)
    requires
        full(done),
    ensures
        done.flatten().len() == done.len() * BLOCK,
    decreases done.len(),
{
    if done.len() > 0 {
        let tail = done.drop_first();
        lemma_full_len(tail);
        assert(done.flatten() == done.first() + tail.flatten());
        assert(done[0].len() == BLOCK);
    }
}

fn holds_nul(bytes: &Vec<u8>) -> (r: bool)
    ensures
        r == bytes@.contains(0u8),
{
    let mut i: usize = 0;
    while i < bytes.len()
        invariant
            i <= bytes@.len(),
            forall|j: int| 0 <= j < i ==> bytes@[j] != 0,
        decreases bytes@.len() - i,
    {
        if bytes[i] == 0 {
            assert(bytes@[i as int] == 0);
            return true;
        }
        i = i + 1;
    }
    false
}

/// A fingerprint in the making.
pub struct FileHasher {
    hasher: DefaultHasher,
    pending: Vec<u8>,
    sniffed: bool,
    binary: bool,
    seen: Ghost<Seq<u8>>,
}

impl FileHasher {
    /// The bytes fed so far.
    pub closed spec fn seen(&self) -> Seq<u8> {
        self.seen@
    }

    /// What the hasher was given and what is pending make up what was fed.
    pub closed spec fn wf(&self) -> bool {
        if self.binary {
            &&& self.sniffed
            &&& self.seen().len() >= SNIFF
            &&& window(self.seen()).contains(0u8)
        } else if self.sniffed {
            &&& self.seen().len() >= SNIFF
            &&& !window(self.seen()).contains(0u8)
            &&& self.hasher@.len() > 0
            &&& self.hasher@[0] == window(self.seen())
            &&& full(self.hasher@.drop_first())
            &&& self.seen().skip(SNIFF as int) == self.hasher@.drop_first().flatten()
                + self.pending@
            &&& self.pending@.len() < BLOCK
        } else {
            &&& self.hasher@.len() == 0
            &&& self.pending@ == self.seen()
            &&& self.pending@.len() < SNIFF
        }
    }

    /// A fingerprint of nothing yet.
    pub fn new() -> (r: Self)
        ensures
            r.wf(),
            r.seen() == Seq::<u8>::empty(),
    {
        FileHasher {
            hasher: DefaultHasher::new(),
            pending: Vec::new(),
            sniffed: false,
            binary: false,
            seen: Ghost(Seq::empty()),
        }
    }

    /// How many bytes to read next: the rest of the window, then the rest of
    /// the block. `None` once the file is known to be binary, so that the rest
    /// of it is never read.
    pub fn wanted(&self) -> (r: Option<usize>)
        requires
            self.wf(),
        ensures
            r == (if self.seen().len() < SNIFF {
                Some((SNIFF - self.seen().len()) as usize)
            } else if window(self.seen()).contains(0u8) {
                None
            } else {
                Some((BLOCK - (self.seen().len() - SNIFF) % (BLOCK as int)) as usize)
            }),
    {
        if self.binary {
            None
        } else if self.sniffed {
            proof {
                let done = self.hasher@.drop_first();
                lemma_full_len(done);
                assert(self.seen().skip(SNIFF as int).len() == self.seen().len() - SNIFF);
                let k = done.len() as int;
                let p = self.pending@.len() as int;
                assert(self.seen().len() - SNIFF == k * BLOCK + p);
                assert((k * 65536 + p) % 65536 == p) by (nonlinear_arith)
                    requires
                        0 <= p < 65536,
                ;
            }
            Some(BLOCK - self.pending.len())
        } else {
            Some(SNIFF - self.pending.len())
        }
    }

    /// Takes the next bytes of the file.
    pub fn feed(&mut self, chunk: &[u8])
        requires
            old(self).wf(),
        ensures
            final(self).wf(),
            final(self).seen() == old(self).seen() + chunk@,
    {
        let ghost start = self.seen@;
        let mut i: usize = 0;
        assert(start + chunk@.take(0) =~= start);
        while i < chunk.len() && !self.binary
            invariant
                i <= chunk@.len(),
                self.wf(),
                self.seen@ == start + chunk@.take(i as int),
            decreases chunk@.len() - i,
        {
            let limit: usize = if self.sniffed {
                BLOCK
            } else {
                SNIFF
            };
            let room: usize = limit - self.pending.len();
            let left: usize = chunk.len() - i;
            let n: usize = if left < room {
                left
            } else {
                room
            };
            self.take(slice_subrange(chunk, i, i + n), limit);
            assert(self.seen@ =~= start + chunk@.take(i + n));
            i = i + n;
        }
        proof {
            let was = self.seen@;
            self.seen@ = start + chunk@;
            assert(self.seen@ =~= was + chunk@.skip(i as int));
            if self.binary {
                assert(window(self.seen@) =~= window(was));
            } else {
                assert(self.seen@ =~= was);
            }
        }
    }

    /// Takes bytes that fit into the pending window or block, and passes it on
    /// once it is full.
    fn take(&mut self, bytes: &[u8], limit: usize)
        requires
            old(self).wf(),
            !old(self).binary,
            limit == (if old(self).sniffed {
                BLOCK
            } else {
                SNIFF
            }),
            old(self).pending@.len() + bytes@.len() <= limit,
        ensures
            final(self).wf(),
            final(self).seen() == old(self).seen() + bytes@,
    {
        let ghost was = *self;
        self.pending.extend_from_slice(bytes);
        proof {
            assert(self.pending@ =~= was.pending@ + bytes@);
            self.seen@ = was.seen@ + bytes@;
        }
        if self.pending.len() < limit {
            proof {
                if self.sniffed {
                    assert(window(self.seen@) =~= window(was.seen@));
                    let done = was.hasher@.drop_first().flatten();
                    assert(self.seen@.skip(SNIFF as int) =~= was.seen@.skip(SNIFF as int) + bytes@);
                    assert((done + was.pending@) + bytes@ =~= done + self.pending@);
                }
            }
            return ;
        }
        if self.sniffed {
            self.hasher.write(self.pending.as_slice());
            proof {
                let done = was.hasher@.drop_first();
                assert(window(self.seen@) =~= window(was.seen@));
                assert(self.seen@.skip(SNIFF as int) =~= was.seen@.skip(SNIFF as int) + bytes@);
                assert((done.flatten() + was.pending@) + bytes@ =~= done.flatten() + self.pending@);
                assert(self.hasher@.drop_first() =~= done.push(self.pending@));
                done.lemma_flatten_push(self.pending@);
                assert(done.flatten() + self.pending@ + Seq::<u8>::empty() =~= done.flatten()
                    + self.pending@);
            }
            self.pending.clear();
        } else {
            self.sniffed = true;
            assert(window(self.seen@) =~= self.seen@);
            if holds_nul(&self.pending) {
                self.binary = true;
            } else {
                self.hasher.write(self.pending.as_slice());
                assert(self.hasher@.drop_first() =~= Seq::<Seq<u8>>::empty());
                assert(self.seen@.skip(SNIFF as int) =~= Seq::<u8>::empty());
            }
            self.pending.clear();
        }
    }

    /// The fingerprint of everything that was fed; none for a binary file.
    pub fn finish(self) -> (r: Option<String>)
        requires
            self.wf(),
        ensures
            (match r {
                Some(hash) => Some(hash@),
                None => None,
            }) == content_hash(self.seen()),
    {
        if self.binary {
            return None;
        }
        let mut hasher = self.hasher;
        if !self.sniffed {
            assert(window(self.seen@) =~= self.seen@);
            if holds_nul(&self.pending) {
                return None;
            }
            hasher.write(self.pending.as_slice());
            assert(self.seen@.skip(self.seen@.len() as int) =~= Seq::<u8>::empty());
            assert(hasher@ =~= writes(self.seen@));
        } else {
            let ghost done = self.hasher@.drop_first();
            proof {
                lemma_blocks(done, self.pending@);
                assert(self.hasher@ =~= seq![window(self.seen@)] + done);
            }
            if self.pending.len() > 0 {
                hasher.write(self.pending.as_slice());
            }
            assert(hasher@ =~= writes(self.seen@));
        }
        Some(hex16(hasher.finish()))
    }
}

/// Starts the fingerprint of the file at `repo_rel`; `None` where the file has
/// none whatever it holds.
pub fn hash_file(repo_rel: &str) -> (r: Option<FileHasher>)
    ensures
        r is Some <==> reviewable(repo_rel@),
        r matches Some(hasher) ==> hasher.wf() && hasher.seen() == Seq::<u8>::empty(),
{
    match file_name(repo_rel) {
        Some(name) => {
            if is_lockfile(name.as_str()) {
                None
            } else {
                Some(FileHasher::new())
            }
        },
        None => None,
    }
}

} // verus!
