//! What holds of a run from its start to its end.

use crate::run::{next_step, passing, Action, History, Run, Step};
use crate::text::texts;
use vstd::prelude::*;

verus! {

/// A run of which nothing has happened yet.
pub open spec fn fresh() -> History {
    History { codes: Seq::empty(), marked: None, noticed: false }
}

/// What has happened once commands ended with `codes`, before anything is
/// marked.
pub open spec fn ran(codes: Seq<Option<i32>>) -> History {
    History { codes, marked: None, noticed: false }
}

/// What an action says is the step that it stands for.
pub proof fn law_action(action: Action)
    ensures
        match action {
            Action::Spawn(files) => action@ == Step::Spawn(texts(files@)),
            Action::Mark(files) => action@ == Step::Mark(texts(files@)),
            Action::Notice(count) => action@ == Step::Notice(count as nat),
            Action::Exit(code) => action@ == Step::Exit(code),
        },
{
}

/// The step of a run depends on its kind, its snapshot and its past alone.
pub proof fn law_step(run: Run)
    ensures
        run.step() == next_step(run.per_file(), run.snapshot(), run.past()),
{
}

/// A batch from start to end. The command is started once, on all files of the
/// snapshot, in order. Where it exits with zero, these files are marked, the
/// count of the mark is told and the run exits with zero; where it does not,
/// nothing is marked or told, and the run exits with the code of the command,
/// or with one where a signal killed it.
pub proof fn law_batch_course(files: Seq<Seq<char>>, code: Option<i32>, count: nat)
    requires
        files.len() > 0,
    ensures
        next_step(false, files, fresh()) == Step::Spawn(files),
        code == Some(0i32) ==> {
            &&& next_step(false, files, ran(seq![code])) == Step::Mark(files)
            &&& next_step(
                false,
                files,
                (History { codes: seq![code], marked: Some(count), noticed: false }),
            ) == Step::Notice(count)
            &&& next_step(
                false,
                files,
                (History { codes: seq![code], marked: Some(count), noticed: true }),
            ) == Step::Exit(0)
        },
        code matches Some(c) && c != 0 ==> next_step(false, files, ran(seq![code])) == Step::Exit(
            code->0,
        ),
        code is None ==> next_step(false, files, ran(seq![code])) == Step::Exit(1),
{
}

/// Every file that a batch marks was handed to the command, whatever happened in
/// between: the files of its mark are those that the command was started on.
pub proof fn law_batch_marks_what_ran(files: Seq<Seq<char>>, before: History, after: History)
    requires
        next_step(false, files, before) is Spawn,
        next_step(false, files, after) is Mark,
    ensures
        next_step(false, files, before) == Step::Spawn(files),
        next_step(false, files, after) == Step::Mark(files),
        before.codes.len() == 0,
        after.codes.len() > 0,
{
}

/// Which files pass: of one file, that file where its command exited with zero
/// and none otherwise; of two lists of files with their exit codes, those that
/// pass of the first and then those of the second.
pub proof fn law_passing(
    a: Seq<Seq<char>>,
    a_codes: Seq<Option<i32>>,
    b: Seq<Seq<char>>,
    b_codes: Seq<Option<i32>>,
    file: Seq<char>,
    code: Option<i32>,
)
    requires
        a_codes.len() == a.len(),
        b_codes.len() == b.len(),
    ensures
        passing(seq![file], seq![code]) == (if code == Some(0i32) {
            seq![file]
        } else {
            Seq::<Seq<char>>::empty()
        }),
        passing(a + b, a_codes + b_codes) == passing(a, a_codes) + passing(b, b_codes),
    decreases b.len(),
{
    assert(seq![code].drop_last() =~= Seq::<Option<i32>>::empty());
    assert(passing(seq![file], Seq::<Option<i32>>::empty()) == Seq::<Seq<char>>::empty());
    assert(passing(seq![file], seq![code]) =~= if code == Some(0i32) {
        seq![file]
    } else {
        Seq::<Seq<char>>::empty()
    });
    if b.len() == 0 {
        assert(a + b =~= a);
        assert(a_codes + b_codes =~= a_codes);
        assert(passing(a, a_codes) + passing(b, b_codes) =~= passing(a, a_codes));
    } else {
        let codes = a_codes + b_codes;
        law_passing(a, a_codes, b.drop_last(), b_codes.drop_last(), file, code);
        assert(codes.drop_last() =~= a_codes + b_codes.drop_last());
        assert(codes.last() == b_codes.last());
        assert((a + b)[codes.len() - 1] == b.last());
        assert(b[b_codes.len() - 1] == b.last());
        lemma_passing_reads(a + b, a + b.drop_last(), codes.drop_last());
        lemma_passing_reads(b, b.drop_last(), b_codes.drop_last());
        assert(passing(a + b, codes) =~= passing(a, a_codes) + passing(b, b_codes));
    }
}

/// Which files pass depends on the files alone that have an exit code.
proof fn lemma_passing_reads(a: Seq<Seq<char>>, b: Seq<Seq<char>>, codes: Seq<Option<i32>>)
    requires
        codes.len() <= a.len(),
        codes.len() <= b.len(),
        forall|i: int| 0 <= i < codes.len() ==> a[i] == b[i],
    ensures
        passing(a, codes) == passing(b, codes),
    decreases codes.len(),
{
    if codes.len() > 0 {
        lemma_passing_reads(a, b, codes.drop_last());
    }
}

/// A run per file from start to end. The command is started on each file of the
/// snapshot alone, in order, whatever came of the earlier ones. Then the files
/// that pass are marked, however many failed, and the count of the mark is
/// told; where none passes, nothing is marked and a count of zero is told. The
/// run exits with zero where every command did, and with one otherwise.
pub proof fn law_each_course(files: Seq<Seq<char>>, codes: Seq<Option<i32>>, k: int, count: nat)
    requires
        codes.len() == files.len(),
        0 <= k < files.len(),
    ensures
        next_step(true, files, ran(codes.take(k))) == Step::Spawn(seq![files[k]]),
        ({
            let some_pass = exists|i: int| 0 <= i < codes.len() && #[trigger] codes[i] == Some(0i32);
            let all_pass = forall|i: int|
                0 <= i < codes.len() ==> #[trigger] codes[i] == Some(0i32);
            let mark = if some_pass {
                Some(count)
            } else {
                None
            };
            &&& next_step(true, files, ran(codes)) == (if some_pass {
                Step::Mark(passing(files, codes))
            } else {
                Step::Notice(0)
            })
            &&& some_pass ==> next_step(
                true,
                files,
                (History { codes, marked: mark, noticed: false }),
            ) == Step::Notice(count)
            &&& next_step(true, files, (History { codes, marked: mark, noticed: true }))
                == Step::Exit(
                if all_pass {
                    0
                } else {
                    1
                },
            )
        }),
{
    super::lemma_passing(files, codes, files[k]);
    if passing(files, codes).len() > 0 {
        let p = passing(files, codes)[0];
        assert(passing(files, codes).contains(p));
        super::lemma_passing(files, codes, p);
    }
    if exists|i: int| 0 <= i < codes.len() && #[trigger] codes[i] == Some(0i32) {
        let i = choose|i: int| 0 <= i < codes.len() && #[trigger] codes[i] == Some(0i32);
        super::lemma_passing(files, codes, files[i]);
        assert(files[i] == files[i] && codes[i] == Some(0i32));
        assert(passing(files, codes).contains(files[i]));
    }
}

/// With at least one file that passed and nothing marked or told, the next step
/// of a run per file is the mark of the files that passed: each of them, and no
/// other.
pub proof fn law_each_marks_however_many_failed(
    files: Seq<Seq<char>>,
    codes: Seq<Option<i32>>,
    passed: int,
    path: Seq<char>,
)
    requires
        codes.len() == files.len(),
        0 <= passed < files.len(),
        codes[passed] == Some(0i32),
    ensures
        next_step(true, files, ran(codes)) is Mark,
        next_step(true, files, ran(codes))->Mark_0.contains(path) <==> exists|i: int|
            0 <= i < files.len() && #[trigger] files[i] == path && codes[i] == Some(0i32),
{
    super::lemma_passing(files, codes, path);
    super::lemma_passing(files, codes, files[passed]);
    assert(files[passed] == files[passed] && codes[passed] == Some(0i32));
    assert(passing(files, codes).contains(files[passed]));
}

} // verus!
