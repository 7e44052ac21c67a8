//! One function per subcommand: what each decides and what it writes.
//!
//! A change set goes to stdout as plain text, so it can be piped into the next
//! tool; counts and notices go to stderr. Exit codes keep the same discipline:
//! `list -q` exits 1 for "nothing changed", which is why a failure exits 2.

use crate::git::{decode, decoded};
use crate::ink::{inked, Ink, Tone};
use crate::json::{json_array, json_string, json_strings, string_to_json, strings_to_json};
use crate::layout::{state_file, store_dir};
use crate::repo::{ConsumerStatus, Repo};
use crate::text::{copy_all, decimal, decimal_text, fields, join, split_fields, texts};
use vstd::prelude::*;

verus! {

/// The consumer of a command that names none.
pub const DEFAULT_CONSUMER: &'static str = "default";

/// The exit code of a command that failed.
pub const FAILURE: i32 = 2;

/// The consumer that a command works for.
pub fn consumer_or_default(consumer: Option<&str>) -> (r: String)
    ensures
        r@ == (match consumer {
            Some(name) => name@,
            None => DEFAULT_CONSUMER@,
        }),
{
    match consumer {
        Some(name) => name.to_owned(),
        None => DEFAULT_CONSUMER.to_owned(),
    }
}

/// The exit code for the outcome of a command; `None` is a failure.
pub fn exit_code(outcome: Option<i32>) -> (r: i32)
    ensures
        r == (match outcome {
            Some(code) => code,
            None => FAILURE,
        }),
{
    match outcome {
        Some(code) => code,
        None => FAILURE,
    }
}

/// The version to report: that of the package, set off for a dirty build.
pub fn version_text(package: &str, dirty: bool) -> (r: String)
    ensures
        r@ == (if dirty {
            package@ + "-dirty"@
        } else {
            package@
        }),
{
    let mut r = package.to_owned();
    if dirty {
        r.append("-dirty");
    }
    r
}

/// What a command writes to stdout, and its exit code.
pub struct Output {
    pub text: String,
    pub code: i32,
}

/// Each path followed by `end`.
pub open spec fn terminated(paths: Seq<Seq<char>>, end: char) -> Seq<char>
    decreases paths.len(),
{
    if paths.len() == 0 {
        Seq::<char>::empty()
    } else {
        (terminated(paths.drop_last(), end) + paths.last()).push(end)
    }
}

fn terminate(paths: &Vec<String>, end: char) -> (r: String)
    ensures
        r@ == terminated(texts(paths@), end),
{
    let ghost all = texts(paths@);
    let mut r = String::new();
    let mut i: usize = 0;
    assert(all.take(0) =~= Seq::<Seq<char>>::empty());
    while i < paths.len()
        invariant
            all == texts(paths@),
            i <= paths@.len(),
            r@ == terminated(all.take(i as int), end),
        decreases paths@.len() - i,
    {
        assert(all.take(i + 1).drop_last() =~= all.take(i as int));
        assert(all.take(i + 1).last() == paths@[i as int]@);
        r.append(paths[i].as_str());
        r.push(end);
        i = i + 1;
    }
    assert(all.take(all.len() as int) =~= all);
    r
}

/// What separates paths on a stream.
pub open spec fn separator(null: bool) -> char {
    if null {
        '\0'
    } else {
        '\n'
    }
}

/// The change set as `list` writes it.
pub open spec fn list_text(changed: Seq<Seq<char>>, null: bool, json: bool) -> Seq<char> {
    if json {
        json_strings(changed).push('\n')
    } else {
        terminated(changed, separator(null))
    }
}

/// Lists the change set: as a JSON array, or each path ended by a NUL or a
/// newline. A quiet list writes nothing and tells by its exit code whether
/// anything changed.
pub fn list(changed: &Vec<String>, null: bool, quiet: bool, json: bool) -> (r: Output)
    ensures
        r.text@ == (if quiet {
            Seq::<char>::empty()
        } else {
            list_text(texts(changed@), null, json)
        }),
        r.code == (if quiet && changed@.len() == 0 {
            1i32
        } else {
            0i32
        }),
        r.code != FAILURE,
{
    if quiet {
        return Output {
            text: String::new(),
            code: if changed.len() == 0 {
                1
            } else {
                0
            },
        };
    }
    let text = if json {
        let mut line = strings_to_json(changed).unwrap();
        line.push('\n');
        line
    } else if null {
        terminate(changed, '\0')
    } else {
        terminate(changed, '\n')
    };
    Output { text, code: 0 }
}

/// The paths in a selection that is piped in.
pub fn read_stdin_paths(input: &[u8], null: bool) -> (r: Vec<String>)
    ensures
        texts(r@) == fields(decoded(input@), separator(null)),
{
    let sep = if null {
        '\0'
    } else {
        '\n'
    };
    split_fields(decode(input).as_str(), sep)
}

/// The paths to hand on to a mark, none of them for the whole changed set;
/// `None` marks nothing. `stdin` holds the selection where one is piped in: a
/// piped selection of nothing marks nothing.
pub fn mark(paths: &Vec<String>, stdin: Option<&[u8]>, null: bool) -> (r: Option<Vec<String>>)
    ensures
        (match r {
            Some(chosen) => Some(texts(chosen@)),
            None => None,
        }) == (match stdin {
            None => Some(texts(paths@)),
            Some(input) => {
                let piped = fields(decoded(input@), separator(null));
                if piped.len() == 0 {
                    None
                } else {
                    Some(piped)
                }
            },
        }),
{
    match stdin {
        Some(input) => {
            let piped = read_stdin_paths(input, null);
            assert(texts(piped@).len() == piped@.len());
            if piped.len() == 0 {
                None
            } else {
                Some(piped)
            }
        },
        None => Some(copy_all(paths)),
    }
}

/// The paths that a request asks to mark; one without a list of paths asks, as
/// one with an empty list, for the whole changed set.
pub fn requested_paths(paths: Option<Vec<String>>) -> (r: Vec<String>)
    ensures
        texts(r@) == (match paths {
            Some(named) => texts(named@),
            None => Seq::<Seq<char>>::empty(),
        }),
{
    match paths {
        Some(named) => named,
        None => {
            let r: Vec<String> = Vec::new();
            assert(texts(r@) =~= Seq::<Seq<char>>::empty());
            r
        },
    }
}

/// The consumers to report: the one that is named, or all that have a
/// baseline.
pub fn status_names(consumer: Option<&str>, found: Vec<String>) -> (r: Vec<String>)
    ensures
        texts(r@) == (match consumer {
            Some(name) => seq![name@],
            None => texts(found@),
        }),
{
    match consumer {
        Some(name) => {
            let mut r: Vec<String> = Vec::new();
            r.push(name.to_owned());
            assert(texts(r@) =~= seq![name@]);
            r
        },
        None => found,
    }
}

/// The consumers whose counts are to be taken for a report; `None` where there
/// are none, so that no file has to be read.
pub fn to_count(names: Vec<String>) -> (r: Option<Vec<String>>)
    ensures
        r == (if names@.len() == 0 {
            None
        } else {
            Some(names)
        }),
{
    if names.len() == 0 {
        None
    } else {
        Some(names)
    }
}

/// The counts of one consumer on a line.
pub open spec fn status_line(ink: Ink, status: ConsumerStatus) -> Seq<char> {
    inked(ink, Tone::Cyan, status.consumer@) + ": "@ + inked(
        ink,
        Tone::Bold,
        decimal_text(status.tracked_count as nat),
    ) + " "@ + inked(ink, Tone::Dim, "tracked,"@) + " "@ + inked(
        ink,
        if status.changed == 0 {
            Tone::Dim
        } else {
            Tone::Yellow
        },
        decimal_text(status.changed as nat),
    ) + " "@ + inked(ink, Tone::Dim, "changed"@)
}

fn format_status(ink: &Ink, status: &ConsumerStatus) -> (r: String)
    ensures
        r@ == status_line(*ink, *status),
{
    let changed = decimal(status.changed as u64);
    let mut r = ink.cyan(status.consumer.as_str());
    r.append(": ");
    r.append(ink.bold(decimal(status.tracked_count as u64).as_str()).as_str());
    r.append(" ");
    r.append(ink.dim("tracked,").as_str());
    r.append(" ");
    if status.changed == 0 {
        r.append(ink.dim(changed.as_str()).as_str());
    } else {
        r.append(ink.yellow(changed.as_str()).as_str());
    }
    r.append(" ");
    r.append(ink.dim("changed").as_str());
    r
}

/// The counts of one consumer as a JSON object.
pub open spec fn status_object(status: ConsumerStatus) -> Seq<char> {
    "{\"consumer\":"@ + json_string(status.consumer@) + ",\"tracked\":"@ + decimal_text(
        status.tracked_count as nat,
    ) + ",\"changed\":"@ + decimal_text(status.changed as nat) + "}"@
}

fn status_to_json(status: &ConsumerStatus) -> (r: String)
    ensures
        r@ == status_object(*status),
{
    let mut r = "{\"consumer\":".to_owned();
    r.append(string_to_json(status.consumer.as_str()).unwrap().as_str());
    r.append(",\"tracked\":");
    r.append(decimal(status.tracked_count as u64).as_str());
    r.append(",\"changed\":");
    r.append(decimal(status.changed as u64).as_str());
    r.append("}");
    r
}

/// The report of `status`.
pub open spec fn status_text(ink: Ink, statuses: Seq<ConsumerStatus>, json: bool) -> Seq<char> {
    if json {
        json_array(statuses.map_values(|s: ConsumerStatus| status_object(s))).push('\n')
    } else if statuses.len() == 0 {
        inked(ink, Tone::Dim, "no glean state for any consumer"@).push('\n')
    } else {
        terminated(statuses.map_values(|s: ConsumerStatus| status_line(ink, s)), '\n')
    }
}

/// Reports the counts: as a JSON array, or a line for each consumer.
pub fn status(ink: &Ink, statuses: &Vec<ConsumerStatus>, json: bool) -> (r: Output)
    ensures
        r.text@ == status_text(*ink, statuses@, json),
        r.code == 0,
{
    let ghost want = if json {
        statuses@.map_values(|s: ConsumerStatus| status_object(s))
    } else {
        statuses@.map_values(|s: ConsumerStatus| status_line(*ink, s))
    };
    let mut parts: Vec<String> = Vec::new();
    let mut i: usize = 0;
    while i < statuses.len()
        invariant
            i <= statuses@.len(),
            want.len() == statuses@.len(),
            forall|j: int|
                0 <= j < statuses@.len() ==> #[trigger] want[j] == (if json {
                    status_object(statuses@[j])
                } else {
                    status_line(*ink, statuses@[j])
                }),
            texts(parts@) == want.take(i as int),
        decreases statuses@.len() - i,
    {
        let ghost was = parts@;
        let part = if json {
            status_to_json(&statuses[i])
        } else {
            format_status(ink, &statuses[i])
        };
        parts.push(part);
        assert(want[i as int] == part@);
        assert(texts(parts@) =~= texts(was).push(part@));
        assert(want.take(i + 1) =~= want.take(i as int).push(want[i as int]));
        i = i + 1;
    }
    assert(want.take(want.len() as int) =~= want);
    let text = if json {
        let mut line = "[".to_owned();
        line.append(join(&parts, ",").as_str());
        line.append("]");
        line.push('\n');
        proof {
            reveal_strlit("[");
            reveal_strlit("]");
            assert(line@ =~= json_array(want).push('\n'));
        }
        line
    } else if statuses.len() == 0 {
        let mut line = ink.dim("no glean state for any consumer");
        line.push('\n');
        line
    } else {
        terminate(&parts, '\n')
    };
    Output { text, code: 0 }
}

/// What a reset removes.
pub enum Removal {
    /// A directory with all that is in it.
    Tree(String),
    /// One file.
    File(String),
}

/// Forgets a baseline: the file of `consumer`, or with `all` the whole store,
/// so that nothing lingers.
pub fn reset(repo: &Repo, consumer: &str, all: bool) -> (r: Removal)
    ensures
        all ==> (r matches Removal::Tree(path) && path@ == store_dir(repo.git_dir@)),
        !all ==> (r matches Removal::File(path) && path@ == state_file(repo.git_dir@, consumer@)),
{
    if all {
        Removal::Tree(repo.store_path())
    } else {
        Removal::File(repo.state_path(consumer))
    }
}

} // verus!
