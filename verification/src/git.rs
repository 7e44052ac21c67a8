//! What git is asked, and how its answers are read.

use crate::text::{fields, join, joined, split_fields, texts, trim, trimmed};
use vstd::prelude::*;
use vstd::utf8::*;

verus! {

/// Git's hash of the empty tree: a diff base that every repository has, one
/// without a commit too.
pub const EMPTY_TREE: &'static str = "4b825dc642cb6eb9a060e54bf8d69288fbee4904";

/// What `String::from_utf8_lossy` makes of bytes that are not valid UTF-8.
pub uninterp spec fn patched(bytes: Seq<u8>) -> Seq<char>;

/// The text of a byte string: its UTF-8 decoding, with the invalid parts
/// patched where it is not valid.
pub open spec fn decoded(bytes: Seq<u8>) -> Seq<char> {
    if valid_utf8(bytes) {
        decode_utf8(bytes)
    } else {
        patched(bytes)
    }
}

/// `String::from_utf8_lossy`: valid UTF-8 is decoded as it is. Of other bytes
/// nothing is said but that the text depends on the bytes alone.
#[verifier::external_body]
pub(crate) fn decode(bytes: &[u8]) -> (r: String)
    ensures
        r@ == (if valid_utf8(bytes@) {
            decode_utf8(bytes@)
        } else {
            patched(bytes@)
        }),
{
    String::from_utf8_lossy(bytes).into_owned()
}

/// Arguments of the query for the top directory of the working tree.
pub fn toplevel_args() -> (r: Vec<String>)
    ensures
        texts(r@) == seq!["rev-parse"@, "--show-toplevel"@],
{
    let mut r: Vec<String> = Vec::new();
    r.push("rev-parse".to_owned());
    r.push("--show-toplevel".to_owned());
    assert(texts(r@) =~= seq!["rev-parse"@, "--show-toplevel"@]);
    r
}

/// Arguments of the query for the git directory.
pub fn git_dir_args() -> (r: Vec<String>)
    ensures
        texts(r@) == seq!["rev-parse"@, "--absolute-git-dir"@],
{
    let mut r: Vec<String> = Vec::new();
    r.push("rev-parse".to_owned());
    r.push("--absolute-git-dir".to_owned());
    assert(texts(r@) =~= seq!["rev-parse"@, "--absolute-git-dir"@]);
    r
}

/// Arguments of the query that succeeds where `HEAD` resolves.
pub fn head_args() -> (r: Vec<String>)
    ensures
        texts(r@) == seq!["rev-parse"@, "--verify"@, "--quiet"@, "HEAD"@],
{
    let mut r: Vec<String> = Vec::new();
    r.push("rev-parse".to_owned());
    r.push("--verify".to_owned());
    r.push("--quiet".to_owned());
    r.push("HEAD".to_owned());
    assert(texts(r@) =~= seq!["rev-parse"@, "--verify"@, "--quiet"@, "HEAD"@]);
    r
}

/// What the working tree is compared with: `HEAD`, or the empty tree before
/// the first commit, where `HEAD` does not resolve.
pub open spec fn diff_base(has_head: bool) -> Seq<char> {
    if has_head {
        "HEAD"@
    } else {
        EMPTY_TREE@
    }
}

/// Arguments of the query for the tracked files that differ from the base.
pub fn diff_args(has_head: bool) -> (r: Vec<String>)
    ensures
        texts(r@) == seq!["diff"@, diff_base(has_head), "-z"@, "--name-only"@],
{
    let base: &str = if has_head {
        "HEAD"
    } else {
        EMPTY_TREE
    };
    let mut r: Vec<String> = Vec::new();
    r.push("diff".to_owned());
    r.push(base.to_owned());
    r.push("-z".to_owned());
    r.push("--name-only".to_owned());
    assert(texts(r@) =~= seq!["diff"@, diff_base(has_head), "-z"@, "--name-only"@]);
    r
}

/// Arguments of the query for the untracked files that are not ignored.
pub fn others_args() -> (r: Vec<String>)
    ensures
        texts(r@) == seq!["ls-files"@, "--others"@, "--exclude-standard"@, "-z"@],
{
    let mut r: Vec<String> = Vec::new();
    r.push("ls-files".to_owned());
    r.push("--others".to_owned());
    r.push("--exclude-standard".to_owned());
    r.push("-z".to_owned());
    assert(texts(r@) =~= seq!["ls-files"@, "--others"@, "--exclude-standard"@, "-z"@]);
    r
}

/// The answer of a git run that ended: its output, or a message that names the
/// query where it did not succeed.
pub fn git(args: &Vec<String>, success: bool, stdout: Vec<u8>) -> (r: Result<Vec<u8>, String>)
    ensures
        success ==> r == Ok::<Vec<u8>, String>(stdout),
        !success ==> (r matches Err(message) && message@ == "git "@ + joined(texts(args@), " "@)
            + " failed"@),
{
    if success {
        Ok(stdout)
    } else {
        let mut message = "git ".to_owned();
        message.append(join(args, " ").as_str());
        message.append(" failed");
        Err(message)
    }
}

/// Reads an answer of one line.
pub fn git_line(stdout: &[u8]) -> (r: String)
    ensures
        r@ == trimmed(decoded(stdout@)),
{
    trim(decode(stdout).as_str())
}

/// Reads an answer of NUL-separated paths.
pub fn git_z(stdout: &[u8]) -> (r: Vec<String>)
    ensures
        texts(r@) == fields(decoded(stdout@), '\0'),
{
    split_fields(decode(stdout).as_str(), '\0')
}

} // verus!
