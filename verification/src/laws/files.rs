//! What holds of files: what of them is fingerprinted, which have a
//! fingerprint, and where baselines are kept.

use super::text::{law_hex16, lemma_split_one, number};
use super::{lemma_split_append, lemma_split_join, lemma_store_dir};
use crate::content::{
    blocks, content_hash, file_hash, lockfile, name_of, naming, reviewable, window, writes,
};
use crate::git::diff_base;
use crate::layout::{
    absolute, consumer_of, named_consumers, path_join, state_file, store_dir, temp_file,
};
use crate::text::{fields, lemma_split_on_some, split_on};
use std::collections::hash_map::DefaultHasher;
use vstd::prelude::*;
use vstd::std_specs::hash::*;

verus! {

proof fn lemma_blocks_cover(rest: Seq<u8>)
    ensures
        blocks(rest).flatten() == rest,
        forall|i: int|
            0 <= i < blocks(rest).len() ==> 0 < (#[trigger] blocks(rest)[i]).len() <= 65536,
        forall|i: int|
            0 <= i < blocks(rest).len() - 1 ==> (#[trigger] blocks(rest)[i]).len() == 65536,
    decreases rest.len(),
{
    let all = blocks(rest);
    if rest.len() == 0 {
        assert(all.flatten() =~= rest);
    } else if rest.len() < 65536 {
        all.lemma_flatten_one_element();
    } else {
        let more = rest.skip(65536);
        lemma_blocks_cover(more);
        assert(all.drop_first() =~= blocks(more));
        assert(all.flatten() =~= rest.take(65536) + more);
        assert(rest.take(65536) + more =~= rest);
        assert forall|i: int| 0 <= i < all.len() implies 0 < (#[trigger] all[i]).len()
            <= 65536 by {
            if i > 0 {
                assert(all[i] == blocks(more)[i - 1]);
            }
        }
        assert forall|i: int| 0 <= i < all.len() - 1 implies (#[trigger] all[i]).len() == 65536 by {
            if i > 0 {
                assert(all[i] == blocks(more)[i - 1]);
            }
        }
    }
}

/// The hasher is given every byte of a file once and in order: first up to 8192
/// bytes, then the rest in blocks of 65536, the last of which may be short.
pub proof fn law_every_byte_is_hashed(contents: Seq<u8>)
    ensures
        writes(contents).flatten() == contents,
        writes(contents).len() > 0,
        writes(contents)[0].len() == (if contents.len() < 8192 {
            contents.len()
        } else {
            8192
        }),
        forall|i: int|
            1 <= i < writes(contents).len() ==> 0 < (#[trigger] writes(contents)[i]).len() <= 65536,
        forall|i: int|
            1 <= i < writes(contents).len() - 1 ==> (#[trigger] writes(contents)[i]).len() == 65536,
{
    let all = writes(contents);
    let first = window(contents);
    let rest = contents.skip(first.len() as int);
    lemma_blocks_cover(rest);
    assert(all.drop_first() =~= blocks(rest));
    assert(all.flatten() =~= first + rest);
    assert(first + rest =~= contents);
    assert forall|i: int| 1 <= i < all.len() implies 0 < (#[trigger] all[i]).len() <= 65536 by {
        assert(all[i] == blocks(rest)[i - 1]);
    }
    assert forall|i: int| 1 <= i < all.len() - 1 implies (#[trigger] all[i]).len() == 65536 by {
        assert(all[i] == blocks(rest)[i - 1]);
    }
}

/// Contents that differ in any byte are hashed from different input.
pub proof fn law_edits_reach_the_hasher(a: Seq<u8>, b: Seq<u8>)
    requires
        a != b,
    ensures
        writes(a) != writes(b),
{
    law_every_byte_is_hashed(a);
    law_every_byte_is_hashed(b);
}

/// A file has no fingerprint exactly where a NUL stands among its first 8192
/// bytes.
pub proof fn law_binary_by_the_first_bytes(contents: Seq<u8>)
    ensures
        content_hash(contents) is None <==> exists|i: int|
            0 <= i < contents.len() && i < 8192 && #[trigger] contents[i] == 0u8,
{
    let first = window(contents);
    if first.contains(0u8) {
        let k = first.index_of(0u8);
        assert(contents[k] == 0u8);
    }
    if exists|i: int| 0 <= i < contents.len() && i < 8192 && #[trigger] contents[i] == 0u8 {
        let k = choose|i: int| 0 <= i < contents.len() && i < 8192 && #[trigger] contents[i] == 0u8;
        assert(first[k] == 0u8);
    }
}

/// A fingerprint is the hash in sixteen hexadecimal digits, so that it is the
/// same for two files exactly where their hashes are.
pub proof fn law_fingerprint(a: Seq<u8>, b: Seq<u8>)
    requires
        content_hash(a) is Some,
        content_hash(b) is Some,
    ensures
        content_hash(a)->0.len() == 16,
        number(content_hash(a)->0, 16) == DefaultHasher::spec_finish(writes(a)),
        content_hash(a) == content_hash(b) <==> DefaultHasher::spec_finish(writes(a))
            == DefaultHasher::spec_finish(writes(b)),
{
    law_hex16(DefaultHasher::spec_finish(writes(a)));
    law_hex16(DefaultHasher::spec_finish(writes(b)));
}

/// The lockfiles, by name.
pub proof fn law_lockfiles(name: Seq<char>)
    ensures
        lockfile(name) <==> seq![
            "Cargo.lock"@,
            "Gemfile.lock"@,
            "Pipfile.lock"@,
            "bun.lockb"@,
            "composer.lock"@,
            "flake.lock"@,
            "go.sum"@,
            "package-lock.json"@,
            "pnpm-lock.yaml"@,
            "poetry.lock"@,
            "yarn.lock"@,
        ].contains(name),
{
    let all = seq![
        "Cargo.lock"@,
        "Gemfile.lock"@,
        "Pipfile.lock"@,
        "bun.lockb"@,
        "composer.lock"@,
        "flake.lock"@,
        "go.sum"@,
        "package-lock.json"@,
        "pnpm-lock.yaml"@,
        "poetry.lock"@,
        "yarn.lock"@,
    ];
    assert(all[0] == "Cargo.lock"@ && all[1] == "Gemfile.lock"@ && all[2] == "Pipfile.lock"@
        && all[3] == "bun.lockb"@ && all[4] == "composer.lock"@ && all[5] == "flake.lock"@ && all[6]
        == "go.sum"@ && all[7] == "package-lock.json"@ && all[8] == "pnpm-lock.yaml"@ && all[9]
        == "poetry.lock"@ && all[10] == "yarn.lock"@);
}

/// A file that is read has a fingerprint exactly where its path names a file
/// that is no lockfile and its contents are no binary; then the fingerprint is
/// that of the contents, whatever the path. A file that cannot be read has
/// none.
pub proof fn law_which_files_have_a_fingerprint(path: Seq<char>, contents: Seq<u8>)
    ensures
        file_hash(path, None) is None,
        file_hash(path, Some(contents)) is Some <==> name_of(path) is Some && !lockfile(
            name_of(path)->0,
        ) && content_hash(contents) is Some,
        file_hash(path, Some(contents)) is Some ==> file_hash(path, Some(contents)) == content_hash(
            contents,
        ),
        reviewable(path) <==> name_of(path) is Some && !lockfile(name_of(path)->0),
{
}

/// The name of the file that a path leads to. A path without a separator is a
/// name, unless it is empty or a dot or two; behind a separator stands a name
/// too, where an empty one or a dot leaves the path where it was, and two dots
/// lead to no name.
pub proof fn law_name_of(dir: Seq<char>, name: Seq<char>)
    requires
        !name.contains('/'),
    ensures
        name_of(name) == (if name.len() == 0 || name == "."@ || name == ".."@ {
            None
        } else {
            Some(name)
        }),
        name_of(dir.push('/') + name) == (if name.len() == 0 || name == "."@ {
            name_of(dir)
        } else if name == ".."@ {
            None
        } else {
            Some(name)
        }),
{
    reveal_strlit(".");
    reveal_strlit("..");
    reveal_with_fuel(Seq::filter, 2);
    let none = Seq::<Seq<char>>::empty();
    lemma_split_one(name, '/');
    assert(seq![name].drop_last() =~= none);
    let own = seq![name].filter(naming());
    assert(own =~= if name.len() == 0 || name == "."@ {
        none
    } else {
        seq![name]
    });
    assert(".."@ != "."@) by {
        assert(".."@.len() != "."@.len());
    }
    lemma_split_join(dir, name, '/');
    let up = split_on(dir, '/');
    Seq::filter_distributes_over_add(up, seq![name], naming());
    assert(up.filter(naming()) + none =~= up.filter(naming()));
}

/// An absolute path stands alone. Any other is seen from the base: the base
/// comes first, the path last, with a separator between them and no second one,
/// so that the components are those of the base and then those of the path.
pub proof fn law_path_join(base: Seq<char>, part: Seq<char>)
    ensures
        absolute(part) ==> path_join(base, part) == part,
        !absolute(part) ==> {
            let r = path_join(base, part);
            &&& base.is_prefix_of(r)
            &&& part.is_suffix_of(r)
            &&& base.len() == 0 || base.last() == '/' ==> r.len() == base.len() + part.len()
            &&& base.len() > 0 && base.last() != '/' ==> r.len() == base.len() + 1 + part.len()
                && r[base.len() as int] == '/'
            &&& fields(r, '/') == fields(base, '/') + fields(part, '/')
        },
{
    if !absolute(part) {
        let r = path_join(base, part);
        let none = Seq::<char>::empty();
        assert(base =~= r.subrange(0, base.len() as int));
        assert(part =~= r.subrange(r.len() - part.len(), r.len() as int));
        super::text::law_fields(base, part, none, '/');
        if base.len() == 0 {
            assert(base =~= none);
            assert(r =~= part);
            assert(fields(base, '/') + fields(part, '/') =~= fields(part, '/'));
        } else if base.last() == '/' {
            let rest = base.drop_last();
            assert(rest.push('/') + none =~= base);
            assert(rest.push('/') + part =~= r);
            super::text::law_fields(rest, part, none, '/');
            super::text::law_fields(rest, none, none, '/');
            assert(fields(rest, '/') + Seq::<Seq<char>>::empty() =~= fields(rest, '/'));
        }
    }
}

/// The baselines of a repository lie in `glean` below its git directory, each in
/// a file that is named by its consumer; a consumer that is named by an absolute
/// path keeps its own there.
pub proof fn law_where_baselines_lie(git_dir: Seq<char>, consumer: Seq<char>)
    ensures
        git_dir.len() > 0 && git_dir.last() != '/' ==> store_dir(git_dir) == git_dir + "/glean"@,
        git_dir.len() == 0 || git_dir.last() == '/' ==> store_dir(git_dir) == git_dir + "glean"@,
        !absolute(consumer) ==> state_file(git_dir, consumer) == store_dir(git_dir) + "/"@
            + consumer + ".json"@,
        absolute(consumer) ==> state_file(git_dir, consumer) == consumer + ".json"@,
{
    reveal_strlit("glean");
    reveal_strlit("/glean");
    reveal_strlit("/");
    reveal_strlit(".json");
    lemma_store_dir(git_dir);
    if git_dir.len() > 0 && git_dir.last() != '/' {
        assert(store_dir(git_dir) =~= git_dir + "/glean"@);
    }
    let name = consumer + ".json"@;
    assert(name[0] == if consumer.len() > 0 {
        consumer[0]
    } else {
        '.'
    });
    if !absolute(consumer) {
        assert(state_file(git_dir, consumer) =~= store_dir(git_dir) + "/"@ + consumer + ".json"@);
    }
}

/// A file is the baseline of a consumer exactly where it is named by it.
pub proof fn law_consumer_of(file: Seq<char>, consumer: Seq<char>)
    ensures
        consumer_of(file) == Some(consumer) <==> file == consumer + ".json"@,
{
    reveal_strlit(".json");
    let ext = ".json"@;
    if file == consumer + ext {
        assert(ext =~= file.subrange(file.len() - ext.len(), file.len() as int));
        assert(file.take(consumer.len() as int) =~= consumer);
    }
    if consumer_of(file) == Some(consumer) {
        assert(file =~= consumer + file.subrange(file.len() - ext.len(), file.len() as int));
    }
}

/// The consumers of a store: none of no files, of one file its consumer where it
/// has one, and of two lists of files those of the first and then those of the
/// second.
pub proof fn law_named_consumers(a: Seq<Seq<char>>, b: Seq<Seq<char>>, consumer: Seq<char>)
    ensures
        named_consumers(Seq::<Seq<char>>::empty()) == Seq::<Seq<char>>::empty(),
        named_consumers(seq![consumer + ".json"@]) == seq![consumer],
        consumer_of(consumer) is None ==> named_consumers(seq![consumer]) == Seq::<
            Seq<char>,
        >::empty(),
        named_consumers(a + b) == named_consumers(a) + named_consumers(b),
    decreases b.len(),
{
    let none = Seq::<Seq<char>>::empty();
    let file = consumer + ".json"@;
    reveal(Seq::filter_map);
    law_consumer_of(file, consumer);
    lemma_named_push(none, file);
    lemma_named_push(none, consumer);
    assert(none.push(file) =~= seq![file]);
    assert(none.push(consumer) =~= seq![consumer]);
    assert(none.push(consumer) =~= seq![consumer]);
    if b.len() == 0 {
        assert(a + b =~= a);
        assert(b =~= none);
        assert(named_consumers(a) + none =~= named_consumers(a));
    } else {
        let head = b.drop_last();
        law_named_consumers(a, head, consumer);
        lemma_named_push(head, b.last());
        lemma_named_push(a + head, b.last());
        assert(head.push(b.last()) =~= b);
        assert((a + head).push(b.last()) =~= a + b);
        assert(named_consumers(a + b) =~= named_consumers(a) + named_consumers(b));
    }
}

proof fn lemma_named_push(files: Seq<Seq<char>>, file: Seq<char>)
    ensures
        named_consumers(files.push(file)) == (match consumer_of(file) {
            Some(consumer) => named_consumers(files).push(consumer),
            None => named_consumers(files),
        }),
{
    reveal(Seq::filter_map);
    assert(files.push(file).drop_last() =~= files);
    match consumer_of(file) {
        Some(consumer) => {
            assert(named_consumers(files.push(file)) =~= named_consumers(files).push(consumer));
        },
        None => {},
    }
}

/// A save first writes beside the baseline file, under a name that starts with
/// the whole name of that file and ends in `json.tmp`.
pub proof fn law_temp_file(target: Seq<char>, dir: Seq<char>, stem: Seq<char>)
    requires
        !stem.contains('/'),
        target == dir.push('/') + (stem + ".json"@),
    ensures
        temp_file(target) == (if stem.len() > 0 {
            target + ".tmp"@
        } else {
            target + ".json.tmp"@
        }),
        split_on(temp_file(target), '/').drop_last() == split_on(target, '/').drop_last(),
{
    reveal_strlit(".json");
    reveal_strlit(".tmp");
    reveal_strlit(".json.tmp");
    let name = stem + ".json"@;
    if name.contains('/') {
        let k = name.index_of('/');
        if k < stem.len() {
            assert(stem[k] == '/');
        }
    }
    super::lemma_last_component(dir, name);
    if stem.len() > 0 {
        assert(name.len() != ".json"@.len());
    } else {
        assert(name =~= ".json"@);
    }
    let tail = if stem.len() > 0 {
        ".tmp"@
    } else {
        ".json.tmp"@
    };
    lemma_split_append(target, tail, '/');
    lemma_split_on_some(target, '/');
    let parts = split_on(target, '/');
    assert(parts.drop_last().push(parts.last() + tail).drop_last() =~= parts.drop_last());
}

/// Before the first commit the tree is compared with git's empty tree, so that
/// what is staged shows up; from then on with `HEAD`.
pub proof fn law_diff_base()
    ensures
        diff_base(true) == "HEAD"@,
        diff_base(false) == "4b825dc642cb6eb9a060e54bf8d69288fbee4904"@,
{
}

} // verus!
