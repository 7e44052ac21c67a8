//! Running a command on the changed files: what to do next, from what has
//! happened so far.
//!
//! The changed set is snapshotted once, the command runs on it, and the files
//! are marked when it succeeds. Per file, a clean file settles while a failing
//! one keeps coming back, instead of one bad file pinning the whole batch.

use crate::text::{copy_all, texts};
use vstd::prelude::*;

verus! {

/// What has happened in a run: the exit codes of the commands that ended, in
/// order (`None` for one that a signal killed), the count of the mark, and
/// whether the notice was given.
pub struct History {
    pub codes: Seq<Option<i32>>,
    pub marked: Option<nat>,
    pub noticed: bool,
}

/// What to do next, in a run on some files.
pub enum Step {
    /// Run the command on these files.
    Spawn(Seq<Seq<char>>),
    /// Mark these files.
    Mark(Seq<Seq<char>>),
    /// Give the notice that this many files were marked.
    Notice(nat),
    /// End with this exit code.
    Exit(i32),
}

/// The files whose command exited with zero.
pub open spec fn passing(files: Seq<Seq<char>>, codes: Seq<Option<i32>>) -> Seq<Seq<char>>
    decreases codes.len(),
{
    if codes.len() == 0 {
        Seq::<Seq<char>>::empty()
    } else {
        let head = passing(files, codes.drop_last());
        if codes.last() == Some(0i32) {
            head.push(files[codes.len() - 1])
        } else {
            head
        }
    }
}

/// The next step of a run of the command on all files at once: it is marked as
/// a whole where the command exits with zero, and exits as the command does. A
/// command that a signal killed is a generic failure.
pub open spec fn batch_step(files: Seq<Seq<char>>, past: History) -> Step {
    if past.codes.len() == 0 {
        Step::Spawn(files)
    } else {
        match past.codes[0] {
            Some(code) => if code != 0 || past.noticed {
                Step::Exit(code)
            } else {
                match past.marked {
                    None => Step::Mark(files),
                    Some(count) => Step::Notice(count),
                }
            },
            None => Step::Exit(1),
        }
    }
}

/// The next step of a run of the command once per file: the files that pass are
/// marked, and the run exits with zero where all pass.
pub open spec fn each_step(files: Seq<Seq<char>>, past: History) -> Step {
    if past.codes.len() < files.len() {
        Step::Spawn(seq![files[past.codes.len() as int]])
    } else {
        let passed = passing(files, past.codes);
        if past.noticed {
            Step::Exit(
                if passed.len() == files.len() {
                    0
                } else {
                    1
                },
            )
        } else {
            match past.marked {
                None => if passed.len() == 0 {
                    Step::Notice(0)
                } else {
                    Step::Mark(passed)
                },
                Some(count) => Step::Notice(count),
            }
        }
    }
}

/// The next step of a run. With nothing changed the command never runs.
pub open spec fn next_step(each: bool, files: Seq<Seq<char>>, past: History) -> Step {
    if files.len() == 0 {
        Step::Exit(0)
    } else if each {
        each_step(files, past)
    } else {
        batch_step(files, past)
    }
}

/// What to do next.
pub enum Action {
    Spawn(Vec<String>),
    Mark(Vec<String>),
    Notice(usize),
    Exit(i32),
}

impl View for Action {
    type V = Step;

    open spec fn view(&self) -> Step {
        match self {
            Action::Spawn(files) => Step::Spawn(texts(files@)),
            Action::Mark(files) => Step::Mark(texts(files@)),
            Action::Notice(count) => Step::Notice(*count as nat),
            Action::Exit(code) => Step::Exit(*code),
        }
    }
}

/// A run that is under way.
pub struct Run {
    each: bool,
    files: Vec<String>,
    /// How many commands have ended.
    ended: usize,
    /// The files whose command exited with zero.
    passed: Vec<String>,
    /// The exit code of the first command.
    first: Option<i32>,
    marked: Option<usize>,
    noticed: bool,
    codes: Ghost<Seq<Option<i32>>>,
}

proof fn lemma_passing_push(files: Seq<Seq<char>>, codes: Seq<Option<i32>>, code: Option<i32>)
    ensures
        passing(files, codes.push(code)) == (if code == Some(0i32) {
            passing(files, codes).push(files[codes.len() as int])
        } else {
            passing(files, codes)
        }),
{
    assert(codes.push(code).drop_last() =~= codes);
}

impl Run {
    /// Whether the command runs once per file.
    pub closed spec fn per_file(&self) -> bool {
        self.each
    }

    /// The snapshot of the changed set.
    pub closed spec fn snapshot(&self) -> Seq<Seq<char>> {
        texts(self.files@)
    }

    /// What has happened so far.
    pub closed spec fn past(&self) -> History {
        History {
            codes: self.codes@,
            marked: match self.marked {
                Some(count) => Some(count as nat),
                None => None,
            },
            noticed: self.noticed,
        }
    }

    /// The next step.
    pub open spec fn step(&self) -> Step {
        next_step(self.per_file(), self.snapshot(), self.past())
    }

    /// What is kept of the exit codes follows from them, and no command runs
    /// beyond the files.
    pub closed spec fn wf(&self) -> bool {
        &&& self.ended == self.codes@.len()
        &&& self.ended <= self.files@.len()
        &&& texts(self.passed@) == passing(texts(self.files@), self.codes@)
        &&& self.ended > 0 ==> self.first == self.codes@[0]
    }

    /// The next step.
    pub fn action(&self) -> (r: Action)
        requires
            self.wf(),
        ensures
            r@ == self.step(),
    {
        assert(texts(self.files@).len() == self.files@.len());
        assert(texts(self.passed@).len() == self.passed@.len());
        if self.files.len() == 0 {
            return Action::Exit(0);
        }
        if !self.each {
            if self.ended == 0 {
                return Action::Spawn(copy_all(&self.files));
            }
            return match self.first {
                Some(code) => if code != 0 || self.noticed {
                    Action::Exit(code)
                } else {
                    match self.marked {
                        None => Action::Mark(copy_all(&self.files)),
                        Some(count) => Action::Notice(count),
                    }
                },
                None => Action::Exit(1),
            };
        }
        if self.ended < self.files.len() {
            let mut one: Vec<String> = Vec::new();
            one.push(self.files[self.ended].clone());
            assert(texts(one@) =~= seq![texts(self.files@)[self.ended as int]]);
            return Action::Spawn(one);
        }
        if self.noticed {
            return Action::Exit(
                if self.passed.len() == self.files.len() {
                    0
                } else {
                    1
                },
            );
        }
        match self.marked {
            None => if self.passed.len() == 0 {
                Action::Notice(0)
            } else {
                Action::Mark(copy_all(&self.passed))
            },
            Some(count) => Action::Notice(count),
        }
    }

    /// The command that was to run has ended; `None` where a signal killed it.
    pub fn exited(&mut self, code: Option<i32>)
        requires
            old(self).wf(),
            old(self).step() is Spawn,
        ensures
            final(self).wf(),
            final(self).per_file() == old(self).per_file(),
            final(self).snapshot() == old(self).snapshot(),
            final(self).past() == (History {
                codes: old(self).past().codes.push(code),
                ..old(self).past()
            }),
    {
        proof {
            assert(texts(self.files@).len() == self.files@.len());
            assert(self.ended < self.files.len());
            lemma_passing_push(texts(self.files@), self.codes@, code);
        }
        if self.ended == 0 {
            self.first = code;
        }
        let ghost was = self.passed@;
        match code {
            Some(0) => {
                let file = self.files[self.ended].clone();
                self.passed.push(file);
                assert(texts(self.passed@) =~= texts(was).push(
                    texts(self.files@)[self.ended as int],
                ));
            },
            _ => {},
        }
        self.ended = self.ended + 1;
        proof {
            self.codes@ = self.codes@.push(code);
        }
    }

    /// The files that were to be marked are, and `count` baselines moved.
    pub fn marked(&mut self, count: usize)
        requires
            old(self).wf(),
            old(self).step() is Mark,
        ensures
            final(self).wf(),
            final(self).per_file() == old(self).per_file(),
            final(self).snapshot() == old(self).snapshot(),
            final(self).past() == (History { marked: Some(count as nat), ..old(self).past() }),
    {
        self.marked = Some(count);
    }

    /// The notice was given.
    pub fn noticed(&mut self)
        requires
            old(self).wf(),
            old(self).step() is Notice,
        ensures
            final(self).wf(),
            final(self).per_file() == old(self).per_file(),
            final(self).snapshot() == old(self).snapshot(),
            final(self).past() == (History { noticed: true, ..old(self).past() }),
    {
        self.noticed = true;
    }
}

/// Starts a run on a snapshot of the changed set, per file with `each`.
pub fn run_cmd(files: Vec<String>, each: bool) -> (r: Run)
    ensures
        r.wf(),
        r.per_file() == each,
        r.snapshot() == texts(files@),
        r.past() == (History { codes: Seq::empty(), marked: None, noticed: false }),
{
    let r = Run {
        each,
        files,
        ended: 0,
        passed: Vec::new(),
        first: None,
        marked: None,
        noticed: false,
        codes: Ghost(Seq::empty()),
    };
    assert(texts(r.passed@) =~= Seq::<Seq<char>>::empty());
    r
}

/// The program to start for a command on `files`, and its arguments: the rest
/// of the command, then the files.
pub fn spawn(command: &Vec<String>, files: &Vec<String>) -> (r: (String, Vec<String>))
    requires
        command@.len() > 0,
    ensures
        r.0@ == command@[0]@,
        texts(r.1@) == texts(command@).skip(1) + texts(files@),
{
    let mut args: Vec<String> = Vec::new();
    let mut i: usize = 1;
    assert(texts(args@) =~= texts(command@).subrange(1, 1));
    while i < command.len()
        invariant
            1 <= i <= command@.len(),
            texts(args@) == texts(command@).subrange(1, i as int),
        decreases command@.len() - i,
    {
        let ghost was = args@;
        args.push(command[i].clone());
        assert(texts(args@) =~= texts(was).push(command@[i as int]@));
        assert(texts(command@).subrange(1, i + 1) =~= texts(command@).subrange(1, i as int).push(
            command@[i as int]@,
        ));
        i = i + 1;
    }
    assert(texts(command@).subrange(1, command@.len() as int) =~= texts(command@).skip(1));
    let ghost head = args@;
    let mut tail = copy_all(files);
    let ghost added = tail@;
    args.append(&mut tail);
    assert(texts(args@) =~= texts(head) + texts(added));
    (command[0].clone(), args)
}

} // verus!
