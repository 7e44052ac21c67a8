// Scenarios of the command surface and the per-consumer state contract, on a
// working tree and a state directory that are held in memory.

use glean::cmd;
use glean::content;
use glean::git;
use glean::ink::Ink;
use glean::repo::{Reading, Repo, State};
use glean::run::{run_cmd, Action};
use std::collections::BTreeMap;

const PLAIN: Ink = Ink(false);

// The files that git reports as candidates, the other files of the tree, and
// the state files by path.
struct World {
    has_head: bool,
    candidates: BTreeMap<String, Vec<u8>>,
    committed: BTreeMap<String, Vec<u8>>,
    store: BTreeMap<String, Vec<(String, String)>>,
}

// A repository with one committed text file.
fn mk_repo() -> World {
    let mut world = World {
        has_head: true,
        candidates: BTreeMap::new(),
        committed: BTreeMap::new(),
        store: BTreeMap::new(),
    };
    world
        .committed
        .insert("tracked.txt".to_string(), b"hello\n".to_vec());
    world
}

fn discover(consumer: &str) -> Repo {
    let found = Repo::discover(
        consumer,
        Ok(b"/work/repo\n".to_vec()),
        Ok(b"/work/repo/.git\n".to_vec()),
    );
    match found {
        Ok(repo) => repo,
        Err(message) => panic!("{}", message),
    }
}

impl World {
    fn write(&mut self, path: &str, contents: &[u8]) {
        self.committed.remove(path);
        self.candidates.insert(path.to_string(), contents.to_vec());
    }

    fn commit(&mut self, path: &str) {
        let contents = self.candidates.remove(path).expect("candidate");
        self.committed.insert(path.to_string(), contents);
    }

    fn candidates(&self) -> Vec<String> {
        let mut others = Vec::new();
        for path in self.candidates.keys() {
            others.extend_from_slice(path.as_bytes());
            others.push(0);
        }
        Repo::candidates(b"", &others)
    }

    // Feeds the file in pieces of at most 1000 bytes.
    fn hash_file(&self, path: &str) -> Option<String> {
        let mut hasher = content::hash_file(path)?;
        let contents = self
            .candidates
            .get(path)
            .or_else(|| self.committed.get(path))?;
        let mut at = 0;
        while let Some(wanted) = hasher.wanted() {
            let n = wanted.min(1000).min(contents.len() - at);
            if n == 0 {
                break;
            }
            hasher.feed(&contents[at..at + n]);
            at += n;
        }
        hasher.finish()
    }

    fn read(&self, paths: &[String]) -> Vec<Reading> {
        paths
            .iter()
            .map(|path| Reading {
                path: path.clone(),
                hash: self.hash_file(path),
            })
            .collect()
    }

    fn load(&self, repo: &Repo, consumer: &str) -> State {
        State::load(self.store.get(&repo.state_path(consumer)).cloned())
    }

    fn changed(&self, consumer: &str) -> Vec<String> {
        let repo = discover(consumer);
        let readings = self.read(&self.candidates());
        Repo::changed(&readings, &self.load(&repo, consumer))
    }

    fn mark_paths(&mut self, consumer: &str, paths: &[String]) -> usize {
        let repo = discover(consumer);
        let candidates = self.candidates();
        let paths = paths.to_vec();
        let readings = self.read(&Repo::targets(&paths, &candidates));
        let state = self.load(&repo, consumer);
        let marked = repo.mark_paths(state, &candidates, &paths, &readings);
        self.store.insert(marked.path, marked.state.entries());
        marked.marked
    }

    fn list(&self, consumer: &str) -> Vec<String> {
        let out = cmd::list(&self.changed(consumer), false, false, false);
        assert_eq!(out.code, 0);
        out.text.lines().map(str::to_string).collect()
    }

    fn mark(&mut self, consumer: &str, paths: &[&str]) -> usize {
        let paths: Vec<String> = paths.iter().map(|p| p.to_string()).collect();
        match cmd::mark(&paths, None, false) {
            Some(chosen) => self.mark_paths(consumer, &chosen),
            None => 0,
        }
    }

    fn mark_stdin(&mut self, consumer: &str, input: &[u8], null: bool) -> usize {
        match cmd::mark(&Vec::new(), Some(input), null) {
            Some(chosen) => self.mark_paths(consumer, &chosen),
            None => 0,
        }
    }

    fn status(&self, consumer: Option<&str>, json: bool) -> String {
        let repo = discover(&cmd::consumer_or_default(consumer));
        let mut files = Vec::new();
        for path in self.store.keys() {
            files.push(path.rsplit('/').next().unwrap().to_string());
        }
        files.push("a.json.tmp".to_string());
        let names = cmd::status_names(consumer, Repo::consumers(&files));
        let names = cmd::to_count(names).unwrap_or_default();
        let states: Vec<State> = names.iter().map(|name| self.load(&repo, name)).collect();
        let stamps: Vec<Option<u64>> = names.iter().map(|_| Some(7)).collect();
        let readings = self.read(&self.candidates());
        let statuses = Repo::status_for(&names, &states, &stamps, &readings);
        let out = cmd::status(&PLAIN, &statuses, json);
        assert_eq!(out.code, 0);
        out.text
    }

    fn reset(&mut self, consumer: &str, all: bool) {
        let repo = discover(consumer);
        match cmd::reset(&repo, consumer, all) {
            cmd::Removal::Tree(dir) => {
                let below = format!("{}/", dir);
                self.store.retain(|path, _| !path.starts_with(&below));
            }
            cmd::Removal::File(path) => {
                self.store.remove(&path);
            }
        }
    }

    // Runs a command whose exit code depends on the files it is given; returns
    // the exit code of the run and the files of each command started.
    fn run(
        &mut self,
        each: bool,
        command: fn(&[String]) -> Option<i32>,
    ) -> (i32, Vec<Vec<String>>) {
        let mut started = Vec::new();
        let mut run = run_cmd(self.changed("default"), each);
        loop {
            match run.action() {
                Action::Spawn(files) => {
                    let code = command(&files);
                    started.push(files);
                    run.exited(code);
                }
                Action::Mark(files) => {
                    let count = self.mark_paths("default", &files);
                    run.marked(count);
                }
                Action::Notice(_) => run.noticed(),
                Action::Exit(code) => return (code, started),
            }
        }
    }
}

#[test]
fn changed_then_clean() {
    let mut world = mk_repo();
    world.write("tracked.txt", b"edited\n");
    assert_eq!(world.list("default"), vec!["tracked.txt"]);
    assert_eq!(world.mark("default", &[]), 1);
    assert!(world.list("default").is_empty());
}

#[test]
fn per_consumer_independence() {
    let mut world = mk_repo();
    world.write("tracked.txt", b"edited\n");
    assert_eq!(world.list("a"), vec!["tracked.txt"]);
    assert_eq!(world.list("b"), vec!["tracked.txt"]);
    world.mark("a", &[]);
    assert!(world.list("a").is_empty());
    assert_eq!(world.list("b"), vec!["tracked.txt"]);
}

#[test]
fn re_change_detection() {
    let mut world = mk_repo();
    world.write("tracked.txt", b"edited\n");
    world.mark("default", &[]);
    assert!(world.list("default").is_empty());
    world.write("tracked.txt", b"edited again\n");
    assert_eq!(world.list("default"), vec!["tracked.txt"]);
}

#[test]
fn selective_mark() {
    let mut world = mk_repo();
    world.write("file1.txt", b"one\n");
    world.write("file2.txt", b"two\n");
    assert_eq!(world.list("x"), vec!["file1.txt", "file2.txt"]);
    world.mark("x", &["file1.txt"]);
    assert_eq!(world.list("x"), vec!["file2.txt"]);
}

#[test]
fn noise_skip() {
    let mut world = mk_repo();
    world.write("Cargo.lock", b"lockfile contents\n");
    world.write("binary.bin", b"before\0after");
    world.write("real.txt", b"reviewable\n");
    assert_eq!(world.list("default"), vec!["real.txt"]);
}

#[test]
fn nul_in_prefix_skips_streaming() {
    let mut world = mk_repo();
    let mut sniffed_binary = vec![b'a'; 4096];
    sniffed_binary.push(0);
    sniffed_binary.extend_from_slice(&[b'b'; 4096]);
    world.write("sniffed.bin", &sniffed_binary);
    world.write("real.txt", b"reviewable\n");
    assert_eq!(world.list("default"), vec!["real.txt"]);
}

#[test]
fn mark_prunes_non_candidate_entries() {
    let mut world = mk_repo();
    world.write("a.txt", b"alpha\n");
    world.mark("c", &["a.txt"]);
    world.commit("a.txt");
    world.write("tracked.txt", b"edited\n");
    world.mark("c", &["tracked.txt"]);
    let state = &world.store["/work/repo/.git/glean/c.json"];
    let paths: Vec<&str> = state.iter().map(|entry| entry.0.as_str()).collect();
    assert!(!paths.contains(&"a.txt"));
    assert!(paths.contains(&"tracked.txt"));
}

#[test]
fn state_location() {
    let mut world = mk_repo();
    world.write("tracked.txt", b"edited\n");
    world.mark("consumer1", &[]);
    let files: Vec<&String> = world.store.keys().collect();
    assert_eq!(files, vec!["/work/repo/.git/glean/consumer1.json"]);
    assert_eq!(discover("consumer1").store_path(), "/work/repo/.git/glean");
}

#[test]
fn status_and_reset() {
    let mut world = mk_repo();
    world.write("tracked.txt", b"edited\n");
    world.mark("a", &[]);
    world.mark("b", &[]);

    let text = world.status(None, false);
    let status: Vec<&str> = text.lines().collect();
    assert_eq!(status.len(), 2);
    assert!(status[0].starts_with("a:"));
    assert!(status[1].starts_with("b:"));
    assert_eq!(status[0], "a: 1 tracked, 0 changed");

    world.reset("a", false);
    let text = world.status(None, false);
    let status: Vec<&str> = text.lines().collect();
    assert_eq!(status.len(), 1);
    assert!(status[0].starts_with("b:"));

    world.reset("default", true);
    assert_eq!(
        world.status(None, false),
        "no glean state for any consumer\n"
    );
    assert_eq!(world.status(None, true), "[]\n");
    assert!(world.store.is_empty());
}

#[test]
fn no_commit_repo() {
    let mut world = mk_repo();
    world.has_head = false;
    world.committed.clear();
    world.write("untracked.txt", b"new\n");
    assert_eq!(
        git::diff_args(world.has_head),
        vec![
            "diff",
            "4b825dc642cb6eb9a060e54bf8d69288fbee4904",
            "-z",
            "--name-only"
        ]
    );
    assert_eq!(world.list("default"), vec!["untracked.txt"]);
}

#[test]
fn no_commit_staged_file() {
    // Staged files come from the diff against the empty tree, untracked ones
    // from the other query; a path in both is a candidate once.
    let candidates = Repo::candidates(b"staged.txt\0clean.txt\0", b"staged.txt\0");
    assert_eq!(candidates, vec!["clean.txt", "staged.txt"]);
    let mut world = mk_repo();
    world.write("staged.txt", b"staged\nmodified\n");
    world.write("clean.txt", b"clean\n");
    assert_eq!(world.list("default"), vec!["clean.txt", "staged.txt"]);
}

#[test]
fn runtime_error_exit_code() {
    let failed = git::git(&git::toplevel_args(), false, Vec::new());
    assert_eq!(
        failed,
        Err("git rev-parse --show-toplevel failed".to_string())
    );
    let found = Repo::discover("default", failed, Ok(b"/work/.git\n".to_vec()));
    match found {
        Ok(_) => panic!("a repository was found"),
        Err(message) => assert_eq!(
            message,
            "not inside a git repository: git rev-parse --show-toplevel failed"
        ),
    }
    assert_eq!(cmd::exit_code(None), 2);
}

#[test]
fn list_null_separated() {
    let mut world = mk_repo();
    world.write("a.txt", b"a\n");
    world.write("b.txt", b"b\n");
    let out = cmd::list(&world.changed("default"), true, false, false);
    assert_eq!(out.code, 0);
    assert_eq!(out.text.as_bytes(), b"a.txt\0b.txt\0");
}

#[test]
fn list_quiet_gates_on_changes() {
    let mut world = mk_repo();
    let out = cmd::list(&world.changed("default"), false, true, false);
    assert!(out.text.is_empty());
    assert_eq!(out.code, 1);
    world.write("new.txt", b"x\n");
    let out = cmd::list(&world.changed("default"), false, true, false);
    assert!(out.text.is_empty());
    assert_eq!(out.code, 0);
}

#[test]
fn list_json_array() {
    let mut world = mk_repo();
    world.write("a.txt", b"a\n");
    let out = cmd::list(&world.changed("default"), false, false, true);
    assert_eq!(out.code, 0);
    assert_eq!(out.text.trim(), r#"["a.txt"]"#);
}

#[test]
fn mark_stdin() {
    let mut world = mk_repo();
    world.write("a.txt", b"a\n");
    world.write("b.txt", b"b\n");
    assert_eq!(world.mark_stdin("default", b"a.txt\n", false), 1);
    assert_eq!(world.list("default"), vec!["b.txt"]);
    assert_eq!(world.mark_stdin("default", b"b.txt\0", true), 1);
    assert!(world.list("default").is_empty());
}

#[test]
fn status_json_shape() {
    let mut world = mk_repo();
    world.write("a.txt", b"a\n");
    world.mark("x", &[]);
    assert_eq!(
        world.status(Some("x"), true).trim(),
        r#"[{"consumer":"x","tracked":1,"changed":0}]"#
    );
}

#[test]
fn run_batch_marks_on_success() {
    let mut world = mk_repo();
    world.write("a.txt", b"a\n");
    let (code, started) = world.run(false, |_| Some(0));
    assert_eq!(code, 0);
    assert_eq!(started, vec![vec!["a.txt".to_string()]]);
    assert!(world.list("default").is_empty());
}

#[test]
fn run_batch_failure_does_not_mark() {
    let mut world = mk_repo();
    world.write("a.txt", b"a\n");
    let (code, _) = world.run(false, |_| Some(1));
    assert_eq!(code, 1);
    assert_eq!(world.list("default"), vec!["a.txt"]);
}

#[test]
fn run_empty_changeset_is_noop() {
    let mut world = mk_repo();
    let (code, started) = world.run(false, |_| Some(0));
    assert_eq!(code, 0);
    assert!(started.is_empty());
}

#[test]
fn run_each_gates_per_file() {
    let mut world = mk_repo();
    world.write("good.txt", b"good\n");
    world.write("bad.txt", b"bad\n");
    let (code, started) = world.run(true, |files| {
        if files[0].contains("bad") {
            Some(1)
        } else {
            Some(0)
        }
    });
    assert_eq!(code, 1);
    assert_eq!(
        started,
        vec![vec!["bad.txt".to_string()], vec!["good.txt".to_string()]]
    );
    assert_eq!(world.list("default"), vec!["bad.txt"]);
}

#[test]
fn a_killed_command_is_a_generic_failure() {
    let mut world = mk_repo();
    world.write("a.txt", b"a\n");
    let (code, _) = world.run(false, |_| None);
    assert_eq!(code, 1);
    assert_eq!(world.list("default"), vec!["a.txt"]);
}

#[test]
fn a_run_where_nothing_passes_marks_nothing() {
    let mut world = mk_repo();
    world.write("a.txt", b"a\n");
    let (code, _) = world.run(true, |_| Some(3));
    assert_eq!(code, 1);
    assert!(world.store.is_empty());
}

#[test]
fn a_run_where_everything_passes_exits_with_zero() {
    let mut world = mk_repo();
    world.write("a.txt", b"a\n");
    world.write("b.txt", b"b\n");
    let (code, _) = world.run(true, |_| Some(0));
    assert_eq!(code, 0);
    assert!(world.list("default").is_empty());
}

#[test]
fn an_empty_piped_selection_marks_nothing() {
    let mut world = mk_repo();
    world.write("a.txt", b"a\n");
    assert_eq!(world.mark_stdin("default", b"", false), 0);
    assert_eq!(world.mark_stdin("default", b"\n\n", false), 0);
    assert_eq!(world.list("default"), vec!["a.txt"]);
}

#[test]
fn marking_twice_moves_nothing() {
    let mut world = mk_repo();
    world.write("a.txt", b"a\n");
    world.write("b.txt", b"b\n");
    assert_eq!(world.mark("default", &[]), 2);
    let saved = world.store.clone();
    assert_eq!(world.mark("default", &[]), 0);
    assert_eq!(world.mark("default", &["a.txt", "a.txt"]), 0);
    assert_eq!(world.store, saved);
    assert_eq!(world.mark("other", &["a.txt", "a.txt"]), 1);
}

#[test]
fn marking_a_file_that_is_gone_forgets_it() {
    let mut world = mk_repo();
    world.write("a.txt", b"a\n");
    world.mark("default", &["a.txt"]);
    world.candidates.insert("a.txt".to_string(), vec![0]);
    assert_eq!(world.mark("default", &["a.txt"]), 0);
    assert!(world.store["/work/repo/.git/glean/default.json"].is_empty());
}

#[test]
fn a_whole_mark_passes_over_files_without_a_hash() {
    let mut world = mk_repo();
    world.write("a.txt", b"a\n");
    world.mark("default", &["a.txt"]);
    world.candidates.insert("a.txt".to_string(), vec![0]);
    assert_eq!(world.mark("default", &[]), 0);
    assert_eq!(world.store["/work/repo/.git/glean/default.json"].len(), 1);
}

#[test]
fn a_selective_mark_keeps_a_file_git_does_not_report() {
    let mut world = mk_repo();
    assert_eq!(world.mark("default", &["tracked.txt"]), 1);
    let state = &world.store["/work/repo/.git/glean/default.json"];
    assert_eq!(state[0].0, "tracked.txt");
}

#[test]
fn a_file_reverted_to_its_marked_bytes_settles() {
    let mut world = mk_repo();
    world.write("a.txt", b"one\n");
    world.mark("default", &[]);
    world.write("a.txt", b"two\n");
    assert_eq!(world.list("default"), vec!["a.txt"]);
    world.write("a.txt", b"one\n");
    assert!(world.list("default").is_empty());
}

#[test]
fn a_file_reverted_to_its_bytes_of_a_named_mark_settles() {
    let mut world = mk_repo();
    world.write("a.txt", b"one\n");
    world.write("b.txt", b"one\n");
    world.mark("default", &["a.txt"]);
    world.write("a.txt", b"two\n");
    assert_eq!(world.list("default"), vec!["a.txt", "b.txt"]);
    world.write("a.txt", b"one\n");
    assert_eq!(world.list("default"), vec!["b.txt"]);
}

#[test]
fn a_reset_of_all_forgets_what_is_in_the_store() {
    let mut world = mk_repo();
    world.write("a.txt", b"a\n");
    for consumer in ["plain", "in/side", "/tmp/outside"] {
        world.mark(consumer, &[]);
        assert!(world.list(consumer).is_empty());
    }
    world.reset("default", true);
    assert_eq!(world.list("plain"), vec!["a.txt"]);
    assert_eq!(world.list("in/side"), vec!["a.txt"]);
    assert!(world.list("/tmp/outside").is_empty());
    let left = world.store.clone();
    world.reset("default", true);
    assert_eq!(world.store, left);
}

#[test]
fn a_reset_of_one_leaves_the_others() {
    let mut world = mk_repo();
    world.write("a.txt", b"a\n");
    world.mark("x", &[]);
    world.mark("y", &[]);
    world.reset("x", false);
    world.reset("x", false);
    assert_eq!(world.list("x"), vec!["a.txt"]);
    assert!(world.list("y").is_empty());
}

#[test]
fn a_reset_lists_everything_again() {
    let mut world = mk_repo();
    world.write("b.txt", b"b\n");
    world.write("a.txt", b"a\n");
    world.mark("default", &[]);
    world.reset("default", false);
    assert_eq!(world.list("default"), vec!["a.txt", "b.txt"]);
}

#[test]
fn a_list_pipes_into_a_mark() {
    let mut world = mk_repo();
    world.write("with space.txt", b"a\n");
    world.write("with\nnewline.txt", b"b\n");
    world.write("\u{e9}t\u{e9}.txt", b"c\n");
    let changed = world.changed("default");
    let out = cmd::list(&changed, true, false, false);
    assert_eq!(
        cmd::read_stdin_paths(out.text.as_bytes(), true),
        changed
    );
    assert_eq!(world.mark_stdin("default", out.text.as_bytes(), true), 3);
    assert!(world.list("default").is_empty());
}

#[test]
fn a_bare_mark_is_a_mark_of_the_list() {
    let mut world = mk_repo();
    world.write("a.txt", b"a\n");
    world.write("b.txt", b"b\n");
    world.write("go.sum", b"sum\n");
    world.mark("bare", &["a.txt"]);
    world.mark("named", &["a.txt"]);
    world.write("c.txt", b"c\n");
    let listed = world.changed("named");
    assert_eq!(listed, vec!["b.txt", "c.txt"]);
    assert_eq!(world.mark("bare", &[]), 2);
    assert_eq!(world.mark_paths("named", &listed), 2);
    assert_eq!(
        world.store["/work/repo/.git/glean/bare.json"],
        world.store["/work/repo/.git/glean/named.json"]
    );
}

#[test]
fn status_counts_what_list_prints() {
    let mut world = mk_repo();
    world.write("a.txt", b"a\n");
    world.write("b.txt", b"b\n");
    world.write("c.txt", b"c\n");
    world.mark("x", &["b.txt"]);
    assert_eq!(world.list("x").len(), 2);
    assert_eq!(world.status(Some("x"), false), "x: 1 tracked, 2 changed\n");
}

#[test]
fn a_consumer_named_by_a_full_path_shares_its_file() {
    let repo = discover("default");
    assert_ne!(repo.state_path("a"), repo.state_path("b"));
    assert_eq!(
        repo.state_path("/work/repo/.git/glean/a"),
        repo.state_path("a")
    );
}
