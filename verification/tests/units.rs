// Exact values of the pieces.

use glean::cmd;
use glean::content::{self, FileHasher};
use glean::git;
use glean::hashes::Hashes;
use glean::ink::{self, Ink};
use glean::layout;
use glean::order::{compare, Place};
use glean::repo::{ConsumerStatus, Repo, State};
use glean::run::spawn;
use glean::text;
use std::collections::hash_map::DefaultHasher;
use std::hash::Hasher;

fn strings(items: &[&str]) -> Vec<String> {
    items.iter().map(|s| s.to_string()).collect()
}

fn digest(contents: &[u8]) -> String {
    let mut hasher = DefaultHasher::new();
    hasher.write(contents);
    format!("{:016x}", hasher.finish())
}

fn fingerprint(contents: &[u8], step: usize) -> Option<String> {
    let mut hasher = FileHasher::new();
    for chunk in contents.chunks(step) {
        hasher.feed(chunk);
    }
    hasher.finish()
}

#[test]
fn ages() {
    assert_eq!(ink::ago_at(100, 100), "just now");
    assert_eq!(ink::ago_at(159, 100), "just now");
    assert_eq!(ink::ago_at(160, 100), "1m ago");
    assert_eq!(ink::ago_at(3699, 100), "59m ago");
    assert_eq!(ink::ago_at(3700, 100), "1h ago");
    assert_eq!(ink::ago_at(86499, 100), "23h ago");
    assert_eq!(ink::ago_at(86500, 100), "1d ago");
    assert_eq!(ink::ago_at(u64::MAX, 0), "213503982334601d ago");
    assert_eq!(ink::ago_at(0, 100), "just now");
}

#[test]
fn ages_by_a_clock_before_the_epoch() {
    assert_eq!(ink::ago_by(None, 0), "just now");
    assert_eq!(ink::ago_by(None, 86400), "just now");
    assert_eq!(ink::ago_by(Some(0), 0), "just now");
    assert_eq!(ink::ago_by(Some(7200), 0), "2h ago");
}

#[test]
fn requests_without_paths() {
    assert_eq!(cmd::requested_paths(None), strings(&[]));
    assert_eq!(cmd::requested_paths(Some(Vec::new())), strings(&[]));
    assert_eq!(
        cmd::requested_paths(Some(strings(&["b", "a"]))),
        strings(&["b", "a"])
    );
}

#[test]
fn nothing_to_count() {
    assert_eq!(cmd::to_count(Vec::new()), None);
    assert_eq!(cmd::to_count(strings(&["a"])), Some(strings(&["a"])));
}

#[test]
fn ages_by_the_clock() {
    assert_eq!(ink::ago(u64::MAX), "just now");
    assert!(ink::ago(0).ends_with("d ago"));
    assert_ne!(ink::ago(0), "0d ago");
}

#[test]
fn colours() {
    let on = Ink::new(true, false);
    assert_eq!(on.bold("x"), "\x1b[1mx\x1b[0m");
    assert_eq!(on.dim("x"), "\x1b[2mx\x1b[0m");
    assert_eq!(on.red("x"), "\x1b[31mx\x1b[0m");
    assert_eq!(on.green("x"), "\x1b[32mx\x1b[0m");
    assert_eq!(on.yellow("x"), "\x1b[33mx\x1b[0m");
    assert_eq!(on.cyan("x"), "\x1b[36mx\x1b[0m");
    for off in [Ink::new(false, false), Ink::new(true, true)] {
        assert_eq!(off.bold("x"), "x");
        assert_eq!(off.cyan("x"), "x");
    }
}

#[test]
fn notices() {
    let off = Ink(false);
    assert_eq!(ink::marked_files(&off, 6), "marked 6 files");
    assert_eq!(ink::removed(&off, "/a/b"), "removed /a/b");
    assert_eq!(ink::error_notice(&off, "no"), "error: no");
    assert_eq!(
        ink::marked_files(&Ink(true), 10),
        "\x1b[2mmarked\x1b[0m \x1b[32m10\x1b[0m \x1b[2mfiles\x1b[0m"
    );
    assert_eq!(
        ink::removed(&Ink(true), "p"),
        "\x1b[2mremoved\x1b[0m \x1b[1mp\x1b[0m"
    );
}

#[test]
fn numbers() {
    assert_eq!(text::decimal(0), "0");
    assert_eq!(text::decimal(10), "10");
    assert_eq!(text::decimal(u64::MAX), "18446744073709551615");
    assert_eq!(text::hex16(0), "0000000000000000");
    assert_eq!(text::hex16(0xdead_beef), "00000000deadbeef");
    assert_eq!(text::hex16(u64::MAX), "ffffffffffffffff");
}

#[test]
fn splitting() {
    assert_eq!(text::split("", '/'), vec![""]);
    assert_eq!(text::split("/a//b", '/'), vec!["", "a", "", "b"]);
    assert_eq!(text::split_fields("\0a\0\0b\0", '\0'), vec!["a", "b"]);
    assert_eq!(text::join(&strings(&["a", "b", "c"]), " "), "a b c");
    assert_eq!(text::join(&strings(&[]), " "), "");
}

#[test]
fn trimming() {
    for s in ["", " ", "\n", "a", " a b\n", "\u{2003}x\u{85}", "\u{200b}x", "\t\r\n y \u{3000}"] {
        assert_eq!(text::trim(s), s.trim());
    }
    for u in 0..0x11_0000u32 {
        if let Some(c) = char::from_u32(u) {
            assert_eq!(text::is_white(c), c.is_whitespace());
        }
    }
}

#[test]
fn byte_order() {
    let words = ["", "a", "a/b", "a.b", "ab", "b", "\u{e9}", "\u{ffff}", "\u{10000}", "Z"];
    for x in words {
        for y in words {
            let place = compare(x, y);
            assert_eq!(place == Place::Before, x < y);
            assert_eq!(place == Place::Same, x == y);
            assert_eq!(place == Place::After, x > y);
        }
    }
}

#[test]
fn file_names() {
    for path in [
        "", "/", ".", "..", "a", "a/b", "a/b/", "a/b/.", "a/..", "../a", "./a", "a//b", "/a", "./.",
        "a/./b", "a/../b", "...", "a b/c d", "a\\b", "a\\Cargo.lock", "a\\b/c", "c:a", "//a/b",
    ] {
        let expected = std::path::Path::new(path)
            .file_name()
            .map(|name| name.to_str().unwrap().to_string());
        assert_eq!(content::file_name(path), expected, "{:?}", path);
    }
}

#[test]
fn lockfiles() {
    for name in [
        "Cargo.lock",
        "package-lock.json",
        "yarn.lock",
        "pnpm-lock.yaml",
        "bun.lockb",
        "go.sum",
        "Gemfile.lock",
        "poetry.lock",
        "Pipfile.lock",
        "composer.lock",
        "flake.lock",
    ] {
        assert!(content::is_lockfile(name));
        assert!(content::hash_file(&format!("deep/down/{}", name)).is_none());
    }
    assert!(!content::is_lockfile("cargo.lock"));
    assert!(content::hash_file("Cargo.lock/inner.txt").is_some());
    assert!(content::hash_file("a/..").is_none());
    assert!(content::hash_file("").is_none());
}

#[test]
fn fingerprints() {
    assert_eq!(fingerprint(b"", 1), Some(digest(b"")));
    assert_eq!(fingerprint(b"edited\n", 2), Some(digest(b"edited\n")));
    assert_ne!(fingerprint(b"edited\n", 7), fingerprint(b"edited", 6));
}

#[test]
fn fingerprints_depend_on_the_bytes_alone() {
    for len in [8191, 8192, 8193, 8192 + 65535, 8192 + 65536, 8192 + 65537, 300_000] {
        let contents: Vec<u8> = (0..len).map(|i| (i % 251 + 1) as u8).collect();
        let whole = fingerprint(&contents, len);
        assert_eq!(whole, Some(digest(&contents)));
        assert_eq!(fingerprint(&contents, 1000), whole);
        assert_eq!(fingerprint(&contents, 8192), whole);
        assert_eq!(fingerprint(&contents, 65536), whole);
    }
}

#[test]
fn binary_files() {
    assert_eq!(fingerprint(b"a\0", 1), None);
    let mut late = vec![b'a'; 8192];
    late.push(0);
    assert!(fingerprint(&late, 100).is_some());
    let mut early = vec![b'a'; 8191];
    early.push(0);
    assert_eq!(fingerprint(&early, 100), None);
    early.extend_from_slice(b"more");
    assert_eq!(fingerprint(&early, 5000), None);
}

#[test]
fn reads_are_sized_by_the_window_and_the_block() {
    let mut hasher = FileHasher::new();
    assert_eq!(hasher.wanted(), Some(8192));
    hasher.feed(&[b'a'; 100]);
    assert_eq!(hasher.wanted(), Some(8092));
    hasher.feed(&[b'a'; 8092]);
    assert_eq!(hasher.wanted(), Some(65536));
    hasher.feed(&[b'a'; 65536]);
    assert_eq!(hasher.wanted(), Some(65536));
    hasher.feed(&[b'a'; 1]);
    assert_eq!(hasher.wanted(), Some(65535));
    let mut binary = FileHasher::new();
    binary.feed(&[0; 8192]);
    assert_eq!(binary.wanted(), None);
}

#[test]
fn paths_of_baselines() {
    for (base, part) in [
        ("a", "b"),
        ("a/", "b"),
        ("", "b"),
        ("a", "/b"),
        ("a", ""),
        ("/", "b"),
        ("a\\", "b"),
        ("a", "\\b"),
        ("a", "c:b"),
    ] {
        let expected = std::path::Path::new(base).join(part);
        assert_eq!(layout::join_path(base, part), expected.to_str().unwrap());
    }
    let repo = Repo {
        toplevel: "/t".to_string(),
        git_dir: "/g".to_string(),
        consumer: "x".to_string(),
    };
    for name in ["x", "", "a.b", "..", "d/", "d/x", "/abs", "/", "x.json", "a\\b"] {
        let path = std::path::Path::new("/g")
            .join("glean")
            .join(format!("{}.json", name));
        assert_eq!(repo.state_path(name), path.to_str().unwrap());
        let temp = path.with_extension("json.tmp");
        assert_eq!(repo.temp_path(name), temp.to_str().unwrap());
    }
}

#[test]
fn consumers_from_file_names() {
    let files = strings(&["b.json", "a.json", "a.json.tmp", "json", ".json", "c.d.json", "e.txt"]);
    assert_eq!(Repo::consumers(&files), vec!["", "a", "b", "c.d"]);
    assert_eq!(layout::consumer_name("x.json"), Some("x".to_string()));
    assert_eq!(layout::consumer_name("x.json.tmp"), None);
}

#[test]
fn repositories() {
    let found = Repo::discover("me", Ok(b" /top dir\n".to_vec()), Ok(b"/git/\n".to_vec()));
    let repo = match found {
        Ok(repo) => repo,
        Err(message) => panic!("{}", message),
    };
    assert_eq!(repo.toplevel, "/top dir");
    assert_eq!(repo.git_dir, "/git/");
    assert_eq!(repo.consumer, "me");
    assert_eq!(repo.state_path("x"), "/git/glean/x.json");
    assert_eq!(repo.file_path("src/a.rs"), "/top dir/src/a.rs");
    assert_eq!(repo.file_path("/abs"), "/abs");
    let second = Repo::discover("me", Ok(Vec::new()), Err("why".to_string()));
    assert_eq!(
        second.err(),
        Some("not inside a git repository: why".to_string())
    );
}

#[test]
fn git_answers() {
    assert_eq!(git::git(&strings(&["x"]), true, vec![1, 2]), Ok(vec![1, 2]));
    assert_eq!(
        git::git(&strings(&["diff", "HEAD"]), false, vec![1]),
        Err("git diff HEAD failed".to_string())
    );
    assert_eq!(git::git_line(b"/a b\r\n"), "/a b");
    assert_eq!(git::git_z(b"a\0\xff\0"), vec!["a", "\u{fffd}"]);
    assert_eq!(git::diff_args(true), vec!["diff", "HEAD", "-z", "--name-only"]);
    assert_eq!(
        git::others_args(),
        vec!["ls-files", "--others", "--exclude-standard", "-z"]
    );
    assert_eq!(git::git_dir_args(), vec!["rev-parse", "--absolute-git-dir"]);
    assert_eq!(
        git::head_args(),
        vec!["rev-parse", "--verify", "--quiet", "HEAD"]
    );
}

#[test]
fn sorted_maps() {
    let mut map = Hashes::new();
    for key in ["m", "c", "x", "a", "m"] {
        map.insert(key.to_string(), format!("hash {}", key));
    }
    map.insert("c".to_string(), "new".to_string());
    map.remove("x");
    map.remove("nothing");
    assert_eq!(map.len(), 3);
    assert_eq!(map.get("c").map(String::as_str), Some("new"));
    assert_eq!(map.get("x"), None);
    let paths: Vec<&str> = (0..3).map(|i| map.path_at(i).as_str()).collect();
    assert_eq!(paths, vec!["a", "c", "m"]);
    assert_eq!(map.hash_at(2), "hash m");
}

#[test]
fn states_load_what_they_save() {
    let pairs = vec![
        ("b".to_string(), "1".to_string()),
        ("a".to_string(), "2".to_string()),
        ("b".to_string(), "3".to_string()),
    ];
    let saved = State::load(Some(pairs)).entries();
    assert_eq!(
        saved,
        vec![
            ("a".to_string(), "2".to_string()),
            ("b".to_string(), "3".to_string())
        ]
    );
    assert_eq!(State::load(Some(saved.clone())).entries(), saved);
    assert!(State::load(None).entries().is_empty());
}

#[test]
fn json_escapes() {
    let odd = strings(&["a\"b\\c", "\u{8}\t\n\u{c}\r\u{1}\u{1f}\u{7f}", "\u{e9}/\u{1f600}"]);
    let out = cmd::list(&odd, false, false, true);
    assert_eq!(
        out.text,
        "[\"a\\\"b\\\\c\",\"\\b\\t\\n\\f\\r\\u0001\\u001f\u{7f}\",\"\u{e9}/\u{1f600}\"]\n"
    );
    assert_eq!(cmd::list(&strings(&[]), false, false, true).text, "[]\n");
    let statuses = vec![
        ConsumerStatus {
            consumer: "q\"".to_string(),
            tracked_count: 12,
            changed: 3,
            last_marked: Some(5),
        },
        ConsumerStatus {
            consumer: "r".to_string(),
            tracked_count: 0,
            changed: 0,
            last_marked: None,
        },
    ];
    assert_eq!(
        cmd::status(&Ink(true), &statuses, true).text,
        "[{\"consumer\":\"q\\\"\",\"tracked\":12,\"changed\":3},\
         {\"consumer\":\"r\",\"tracked\":0,\"changed\":0}]\n"
    );
    assert_eq!(
        cmd::status(&Ink(true), &statuses, false).text,
        "\x1b[36mq\"\x1b[0m: \x1b[1m12\x1b[0m \x1b[2mtracked,\x1b[0m \x1b[33m3\x1b[0m \x1b[2mchanged\x1b[0m\n\
         \x1b[36mr\x1b[0m: \x1b[1m0\x1b[0m \x1b[2mtracked,\x1b[0m \x1b[2m0\x1b[0m \x1b[2mchanged\x1b[0m\n"
    );
}

#[test]
fn selections() {
    let paths = strings(&["a"]);
    assert_eq!(cmd::mark(&paths, None, false), Some(strings(&["a"])));
    assert_eq!(cmd::mark(&strings(&[]), None, false), Some(strings(&[])));
    assert_eq!(cmd::mark(&paths, Some(b""), false), None);
    assert_eq!(
        cmd::mark(&paths, Some(b"b\nc d\n"), false),
        Some(strings(&["b", "c d"]))
    );
    assert_eq!(
        cmd::mark(&paths, Some(b"b\nc\0"), true),
        Some(strings(&["b\nc"]))
    );
    assert_eq!(cmd::consumer_or_default(None), "default");
    assert_eq!(cmd::consumer_or_default(Some("x")), "x");
    assert_eq!(cmd::status_names(Some("x"), strings(&["a"])), vec!["x"]);
    assert_eq!(cmd::status_names(None, strings(&["a", "b"])), vec!["a", "b"]);
    assert_eq!(cmd::exit_code(Some(1)), 1);
    assert_eq!(cmd::version_text("1.2.3", false), "1.2.3");
    assert_eq!(cmd::version_text("1.2.3", true), "1.2.3-dirty");
}

#[test]
fn command_lines() {
    let (program, args) = spawn(&strings(&["sh", "-c", "x"]), &strings(&["f", "g"]));
    assert_eq!(program, "sh");
    assert_eq!(args, vec!["-c", "x", "f", "g"]);
}
