//! What holds of what is written: lists, reports, notices, colour and JSON.

use super::text::{law_decimal, law_decimal_tells_apart, law_hex, number};
use crate::cmd::{
    list_text, separator, status_line, status_object, status_text, terminated, DEFAULT_CONSUMER,
    FAILURE,
};
use crate::ink::{
    age, age_text, error_text, inked, marked_text, removed_text, shown, Ink, Tone,
};
use crate::json::{json_array, json_char, json_chars, json_string, json_strings};
use crate::repo::ConsumerStatus;
use crate::text::{decimal_text, hex_text, joined};
use vstd::prelude::*;

verus! {

/// Without colour a text is written as it is; with it, between the escape
/// sequence of its tone and the one that ends every tone.
pub proof fn law_colour(tone: Tone, text: Seq<char>)
    ensures
        inked(Ink(false), tone, text) == text,
        inked(Ink(true), tone, text) == "\x1b["@ + (match tone {
            Tone::Bold => "1"@,
            Tone::Dim => "2"@,
            Tone::Red => "31"@,
            Tone::Green => "32"@,
            Tone::Yellow => "33"@,
            Tone::Cyan => "36"@,
        }) + "m"@ + text + "\x1b[0m"@,
{
    reveal_strlit("\x1b[");
    reveal_strlit("m");
    reveal_strlit("1");
    reveal_strlit("2");
    reveal_strlit("31");
    reveal_strlit("32");
    reveal_strlit("33");
    reveal_strlit("36");
    reveal_strlit("\x1b[1m");
    reveal_strlit("\x1b[2m");
    reveal_strlit("\x1b[31m");
    reveal_strlit("\x1b[32m");
    reveal_strlit("\x1b[33m");
    reveal_strlit("\x1b[36m");
    match tone {
        Tone::Bold => {
            assert("\x1b[1m"@ =~= "\x1b["@ + "1"@ + "m"@);
        },
        Tone::Dim => {
            assert("\x1b[2m"@ =~= "\x1b["@ + "2"@ + "m"@);
        },
        Tone::Red => {
            assert("\x1b[31m"@ =~= "\x1b["@ + "31"@ + "m"@);
        },
        Tone::Green => {
            assert("\x1b[32m"@ =~= "\x1b["@ + "32"@ + "m"@);
        },
        Tone::Yellow => {
            assert("\x1b[33m"@ =~= "\x1b["@ + "33"@ + "m"@);
        },
        Tone::Cyan => {
            assert("\x1b[36m"@ =~= "\x1b["@ + "36"@ + "m"@);
        },
    }
}

/// Each text of a list is followed by the end, one after another.
pub proof fn law_terminated(a: Seq<Seq<char>>, b: Seq<Seq<char>>, x: Seq<char>, end: char)
    ensures
        terminated(Seq::<Seq<char>>::empty(), end) == Seq::<char>::empty(),
        terminated(seq![x], end) == x.push(end),
        terminated(a + b, end) == terminated(a, end) + terminated(b, end),
    decreases b.len(),
{
    let none = Seq::<char>::empty();
    assert(seq![x].drop_last() =~= Seq::<Seq<char>>::empty());
    assert(terminated(seq![x].drop_last(), end) == none);
    assert((none + x).push(end) =~= x.push(end));
    if b.len() == 0 {
        assert(a + b =~= a);
        assert(terminated(a, end) + terminated(b, end) =~= terminated(a, end));
    } else {
        law_terminated(a, b.drop_last(), x, end);
        assert((a + b).drop_last() =~= a + b.drop_last());
        assert((a + b).last() == b.last());
        assert(terminated(a + b, end) =~= terminated(a, end) + terminated(b, end));
    }
}

/// What `list` writes of a change set: nothing of an empty one, of one path that
/// path with a NUL or a line end behind it, of a longer list its parts one after
/// another; as JSON, the paths as strings in one array on a line.
pub proof fn law_list_text(a: Seq<Seq<char>>, b: Seq<Seq<char>>, x: Seq<char>, null: bool)
    ensures
        list_text(Seq::<Seq<char>>::empty(), null, false) == Seq::<char>::empty(),
        list_text(seq![x], null, false) == x.push(
            if null {
                '\0'
            } else {
                '\n'
            },
        ),
        list_text(a + b, null, false) == list_text(a, null, false) + list_text(b, null, false),
        list_text(a, null, true) == seq!['['] + joined(
            Seq::new(a.len(), |i: int| json_string(a[i])),
            ","@,
        ) + seq![']', '\n'],
{
    law_terminated(a, b, x, separator(null));
    assert(a.map_values(|s: Seq<char>| json_string(s)) =~= Seq::new(
        a.len(),
        |i: int| json_string(a[i]),
    ));
    assert(list_text(a, null, true) =~= seq!['['] + joined(
        Seq::new(a.len(), |i: int| json_string(a[i])),
        ","@,
    ) + seq![']', '\n']);
}

/// The line of a consumer: its name and both counts, each in its place and, with
/// colour, in its tone; the changed count stands out where it is not zero.
pub proof fn law_status_line(status: ConsumerStatus, ink: Ink)
    ensures
        status_line(Ink(false), status) == status.consumer@ + ": "@ + decimal_text(
            status.tracked_count as nat,
        ) + " tracked, "@ + decimal_text(status.changed as nat) + " changed"@,
        status_line(ink, status) == inked(ink, Tone::Cyan, status.consumer@) + ": "@ + inked(
            ink,
            Tone::Bold,
            decimal_text(status.tracked_count as nat),
        ) + " "@ + inked(ink, Tone::Dim, "tracked,"@) + " "@ + inked(
            ink,
            if status.changed > 0 {
                Tone::Yellow
            } else {
                Tone::Dim
            },
            decimal_text(status.changed as nat),
        ) + " "@ + inked(ink, Tone::Dim, "changed"@),
{
    reveal_strlit(" ");
    reveal_strlit("tracked,");
    reveal_strlit(" tracked, ");
    reveal_strlit("changed");
    reveal_strlit(" changed");
    assert(" tracked, "@ =~= " "@ + "tracked,"@ + " "@);
    assert(" changed"@ =~= " "@ + "changed"@);
    assert(status_line(Ink(false), status) =~= status.consumer@ + ": "@ + decimal_text(
        status.tracked_count as nat,
    ) + " tracked, "@ + decimal_text(status.changed as nat) + " changed"@);
}

/// Digits end where something else begins.
proof fn lemma_digits_end(a: nat, x: Seq<char>, b: nat, y: Seq<char>)
    requires
        decimal_text(a) + x == decimal_text(b) + y,
        x.len() > 0,
        y.len() > 0,
        !('0' <= x[0] <= '9'),
        !('0' <= y[0] <= '9'),
    ensures
        a == b,
        x == y,
{
    let s = decimal_text(a);
    let t = decimal_text(b);
    law_decimal(a);
    law_decimal(b);
    let n = s.len() as int;
    let m = t.len() as int;
    if n < m {
        assert((s + x)[n] == x[0]);
        assert((t + y)[n] == t[n]);
    }
    if m < n {
        assert((t + y)[m] == y[0]);
        assert((s + x)[m] == s[m]);
    }
    assert(s =~= (s + x).take(n));
    assert(t =~= (t + y).take(m));
    assert(x =~= (s + x).skip(n));
    assert(y =~= (t + y).skip(m));
    law_decimal_tells_apart(a, b);
}

proof fn lemma_same_start(p: Seq<char>, x: Seq<char>, y: Seq<char>)
    requires
        p + x == p + y,
    ensures
        x == y,
{
    assert(x =~= (p + x).skip(p.len() as int));
    assert(y =~= (p + y).skip(p.len() as int));
}

/// An escape sequence where colour is on.
spec fn when(ink: Ink, escape: Seq<char>) -> Seq<char> {
    if ink.0 {
        escape
    } else {
        Seq::<char>::empty()
    }
}

/// What stands in a line before the first count.
spec fn line_start(ink: Ink, consumer: Seq<char>) -> Seq<char> {
    inked(ink, Tone::Cyan, consumer) + ": "@ + when(ink, "\x1b[1m"@)
}

/// What stands in a line between the counts, up to the tone of the second.
spec fn line_middle(ink: Ink) -> Seq<char> {
    when(ink, "\x1b[0m"@) + " "@ + inked(ink, Tone::Dim, "tracked,"@) + " "@
}

/// What stands in a line behind the second count.
spec fn line_end(ink: Ink) -> Seq<char> {
    when(ink, "\x1b[0m"@) + " "@ + inked(ink, Tone::Dim, "changed"@)
}

/// The escape sequence before the second count.
spec fn line_tone(ink: Ink, changed: usize) -> Seq<char> {
    when(
        ink,
        if changed == 0 {
            "\x1b[2m"@
        } else {
            "\x1b[33m"@
        },
    )
}

/// What stands in a line from its second count on, with its tone.
spec fn line_rest(ink: Ink, changed: usize) -> Seq<char> {
    line_tone(ink, changed) + (decimal_text(changed as nat) + line_end(ink))
}

proof fn lemma_add_add(a: Seq<char>, b: Seq<char>, c: Seq<char>)
    ensures
        (a + b) + c == a + (b + c),
{
    assert((a + b) + c =~= a + (b + c));
}

/// A count in its tone, between two texts.
proof fn lemma_count_in_place(
    a: Seq<char>,
    on: Seq<char>,
    t: Seq<char>,
    off: Seq<char>,
    b: Seq<char>,
)
    ensures
        a + (on + t + off) + b == a + (on + (t + (off + b))),
{
    assert(a + (on + t + off) + b =~= a + (on + (t + (off + b))));
}

proof fn lemma_line_shape(ink: Ink, status: ConsumerStatus)
    ensures
        status_line(ink, status) == line_start(ink, status.consumer@) + (decimal_text(
            status.tracked_count as nat,
        ) + (line_middle(ink) + line_rest(ink, status.changed))),
{
    let head = inked(ink, Tone::Cyan, status.consumer@) + ": "@;
    let t = decimal_text(status.tracked_count as nat);
    let c = decimal_text(status.changed as nat);
    let bold = when(ink, "\x1b[1m"@);
    let off = when(ink, "\x1b[0m"@);
    let tone = line_tone(ink, status.changed);
    let first = inked(ink, Tone::Bold, t);
    let second = inked(
        ink,
        if status.changed == 0 {
            Tone::Dim
        } else {
            Tone::Yellow
        },
        c,
    );
    assert(first =~= bold + t + off);
    assert(second =~= tone + c + off);
    let word = inked(ink, Tone::Dim, "tracked,"@);
    let gap = " "@ + word + " "@;
    let last = " "@ + inked(ink, Tone::Dim, "changed"@);
    assert(head + first + " "@ + word + " "@ == head + first + gap) by {
        lemma_add_add(head + first, " "@, word);
        lemma_add_add(head + first, " "@ + word, " "@);
    }
    assert(status_line(ink, status) == head + first + gap + second + last) by {
        lemma_add_add(
            head + first + gap + second,
            " "@,
            inked(ink, Tone::Dim, "changed"@),
        );
    }
    lemma_count_in_place(head + first + gap, tone, c, off, last);
    assert(off + last == line_end(ink)) by {
        lemma_add_add(off, " "@, inked(ink, Tone::Dim, "changed"@));
    }
    let rest = line_rest(ink, status.changed);
    assert(status_line(ink, status) == head + first + gap + rest);
    lemma_add_add(head + first, gap, rest);
    lemma_count_in_place(head, bold, t, off, gap + rest);
    lemma_add_add(off, gap, rest);
    assert(off + gap == line_middle(ink)) by {
        lemma_add_add(off, " "@, word);
        lemma_add_add(off, " "@ + word, " "@);
    }
    lemma_add_add(head, bold, t + (line_middle(ink) + rest));
}

/// What follows a count is no digit.
proof fn lemma_line_parts(ink: Ink)
    ensures
        line_middle(ink).len() > 0,
        line_middle(ink)[0] == ' ' || line_middle(ink)[0] == '\x1b',
        line_end(ink).len() > 0,
        line_end(ink)[0] == ' ' || line_end(ink)[0] == '\x1b',
{
    reveal_strlit(" ");
    reveal_strlit("\x1b[0m");
}

/// From the second count on a line determines that count: the tones part before
/// it where only one of two counts is zero.
proof fn lemma_line_rest(ink: Ink, a: usize, b: usize)
    requires
        line_rest(ink, a) == line_rest(ink, b),
    ensures
        a == b,
{
    reveal_strlit("\x1b[2m");
    reveal_strlit("\x1b[33m");
    let x = decimal_text(a as nat) + line_end(ink);
    let y = decimal_text(b as nat) + line_end(ink);
    if ink.0 && (a == 0) != (b == 0) {
        assert(line_rest(ink, a)[2] == line_tone(ink, a)[2]);
        assert(line_rest(ink, b)[2] == line_tone(ink, b)[2]);
        assert(false);
    }
    lemma_same_start(line_tone(ink, a), x, y);
    lemma_line_parts(ink);
    lemma_digits_end(a as nat, line_end(ink), b as nat, line_end(ink));
}

/// A line of the report determines both counts: two statuses of one consumer
/// with the same line have the same counts, whatever is tracked and whatever the
/// colour.
pub proof fn law_status_line_tells_the_counts(a: ConsumerStatus, b: ConsumerStatus, ink: Ink)
    requires
        a.consumer@ == b.consumer@,
        status_line(ink, a) == status_line(ink, b),
    ensures
        a.tracked_count == b.tracked_count,
        a.changed == b.changed,
{
    let mid = line_middle(ink);
    let x = mid + line_rest(ink, a.changed);
    let y = mid + line_rest(ink, b.changed);
    lemma_line_shape(ink, a);
    lemma_line_shape(ink, b);
    lemma_same_start(
        line_start(ink, a.consumer@),
        decimal_text(a.tracked_count as nat) + x,
        decimal_text(b.tracked_count as nat) + y,
    );
    lemma_line_parts(ink);
    assert(x[0] == mid[0] && y[0] == mid[0]);
    lemma_digits_end(a.tracked_count as nat, x, b.tracked_count as nat, y);
    lemma_same_start(mid, line_rest(ink, a.changed), line_rest(ink, b.changed));
    lemma_line_rest(ink, a.changed, b.changed);
}

/// The counts of one consumer as JSON: an object with its name and both counts.
pub proof fn law_status_object(status: ConsumerStatus)
    ensures
        status_object(status) == "{\"consumer\":"@ + json_string(status.consumer@)
            + ",\"tracked\":"@ + decimal_text(status.tracked_count as nat) + ",\"changed\":"@
            + decimal_text(status.changed as nat) + "}"@,
{
}

/// The object of a consumer determines both counts.
pub proof fn law_status_object_tells_the_counts(a: ConsumerStatus, b: ConsumerStatus)
    requires
        a.consumer@ == b.consumer@,
        status_object(a) == status_object(b),
    ensures
        a.tracked_count == b.tracked_count,
        a.changed == b.changed,
{
    reveal_strlit(",\"changed\":");
    reveal_strlit("}");
    let start = "{\"consumer\":"@ + json_string(a.consumer@) + ",\"tracked\":"@;
    let mid = ",\"changed\":"@;
    let more_a = decimal_text(a.changed as nat) + "}"@;
    let more_b = decimal_text(b.changed as nat) + "}"@;
    let rest_a = decimal_text(a.tracked_count as nat) + (mid + more_a);
    let rest_b = decimal_text(b.tracked_count as nat) + (mid + more_b);
    assert(status_object(a) =~= start + rest_a);
    assert(status_object(b) =~= start + rest_b);
    lemma_same_start(start, rest_a, rest_b);
    assert((mid + more_a)[0] == ',' && (mid + more_b)[0] == ',');
    lemma_digits_end(a.tracked_count as nat, mid + more_a, b.tracked_count as nat, mid + more_b);
    lemma_same_start(mid, more_a, more_b);
    lemma_digits_end(a.changed as nat, "}"@, b.changed as nat, "}"@);
}

/// The report has a line for each consumer, in their order, and one line that
/// says so where there is none; as JSON it is one array on a line.
pub proof fn law_status_text(
    ink: Ink,
    a: Seq<ConsumerStatus>,
    b: Seq<ConsumerStatus>,
    x: ConsumerStatus,
)
    ensures
        status_text(ink, Seq::<ConsumerStatus>::empty(), false) == inked(
            ink,
            Tone::Dim,
            "no glean state for any consumer"@,
        ).push('\n'),
        status_text(ink, seq![x], false) == status_line(ink, x).push('\n'),
        a.len() > 0 && b.len() > 0 ==> status_text(ink, a + b, false) == status_text(ink, a, false)
            + status_text(ink, b, false),
        status_text(ink, a, true) == seq!['['] + joined(
            Seq::new(a.len(), |i: int| status_object(a[i])),
            ","@,
        ) + seq![']', '\n'],
{
    let line = |s: ConsumerStatus| status_line(ink, s);
    law_terminated(a.map_values(line), b.map_values(line), status_line(ink, x), '\n');
    assert(seq![x].map_values(line) =~= seq![status_line(ink, x)]);
    assert((a + b).map_values(line) =~= a.map_values(line) + b.map_values(line));
    assert(a.map_values(|s: ConsumerStatus| status_object(s)) =~= Seq::new(
        a.len(),
        |i: int| status_object(a[i]),
    ));
    assert(status_text(ink, a, true) =~= seq!['['] + joined(
        Seq::new(a.len(), |i: int| status_object(a[i])),
        ","@,
    ) + seq![']', '\n']);
}

/// A JSON string holds its characters in order between quotes. Quote, backslash
/// and the control characters are escaped, every other character stands for
/// itself.
pub proof fn law_json_string(a: Seq<char>, b: Seq<char>, c: char)
    ensures
        json_string(Seq::<char>::empty()) == seq!['"', '"'],
        json_string(a + b) == json_string(a).drop_last() + json_string(b).drop_first(),
        json_string(seq![c]) == seq!['"'] + (if c == '"' || c == '\\' {
            seq!['\\', c]
        } else if c == '\n' {
            seq!['\\', 'n']
        } else if c == '\r' {
            seq!['\\', 'r']
        } else if c == '\t' {
            seq!['\\', 't']
        } else if c as int == 8 {
            seq!['\\', 'b']
        } else if c as int == 12 {
            seq!['\\', 'f']
        } else if c as int >= 32 {
            seq![c]
        } else {
            seq!['\\', 'u'] + hex_text(c as nat, 4)
        }) + seq!['"'],
        (c as int) < 32 ==> number(hex_text(c as nat, 4), 16) == c as int,
{
    lemma_json_chars_add(a, b);
    assert(json_string(Seq::<char>::empty()) =~= seq!['"', '"']);
    assert(json_string(a + b) =~= json_string(a).drop_last() + json_string(b).drop_first());
    assert(seq![c].drop_last() =~= Seq::<char>::empty());
    assert(json_chars(seq![c].drop_last()) == Seq::<char>::empty());
    assert(json_chars(seq![c]) =~= json_char(c));
    vstd::utf8::char_is_scalar(c);
    reveal_with_fuel(super::text::hex_range, 5);
    law_hex(c as nat, 4);
}

proof fn lemma_json_chars_add(a: Seq<char>, b: Seq<char>)
    ensures
        json_chars(a + b) == json_chars(a) + json_chars(b),
    decreases b.len(),
{
    if b.len() == 0 {
        assert(a + b =~= a);
        assert(json_chars(a) + json_chars(b) =~= json_chars(a));
    } else {
        lemma_json_chars_add(a, b.drop_last());
        assert((a + b).drop_last() =~= a + b.drop_last());
        assert((a + b).last() == b.last());
        assert(json_chars(a + b) =~= json_chars(a) + json_chars(b));
    }
}

/// A JSON array holds its values in order, with a comma between each two.
pub proof fn law_json_array(values: Seq<Seq<char>>, strings: Seq<Seq<char>>)
    ensures
        json_array(values) == seq!['['] + joined(values, ","@) + seq![']'],
        json_strings(strings) == json_array(
            Seq::new(strings.len(), |i: int| json_string(strings[i])),
        ),
{
    assert(strings.map_values(|s: Seq<char>| json_string(s)) =~= Seq::new(
        strings.len(),
        |i: int| json_string(strings[i]),
    ));
}

/// An age is told in the largest of minutes, hours and days of which it has a
/// whole one, in whole ones; below a minute there is none to tell.
pub proof fn law_age_text(secs: nat, whole: nat)
    ensures
        secs < 60 ==> age_text(secs) == "just now"@,
        60 <= secs < 60 * 60 && whole * 60 <= secs < (whole + 1) * 60 ==> age_text(secs)
            == decimal_text(whole) + "m ago"@,
        60 * 60 <= secs < 24 * 60 * 60 && whole * 3600 <= secs < (whole + 1) * 3600 ==> age_text(
            secs,
        ) == decimal_text(whole) + "h ago"@,
        24 * 60 * 60 <= secs && whole * 86400 <= secs < (whole + 1) * 86400 ==> age_text(secs)
            == decimal_text(whole) + "d ago"@,
{
}

/// The age of an instant is the time that passed since; an instant that is yet
/// to come has none. A clock that stands before the epoch shows the epoch.
pub proof fn law_age(now: u64, then: u64)
    ensures
        then <= now ==> then + age(now, then) == now,
        now <= then ==> age(now, then) == 0,
        shown(Some(now)) == now,
        shown(None) == 0,
{
}

/// The notices: what was removed, how many files were marked, and why a command
/// failed.
pub proof fn law_notices(ink: Ink, text: Seq<char>, count: nat)
    ensures
        removed_text(Ink(false), text) == "removed "@ + text,
        marked_text(Ink(false), count) == "marked "@ + decimal_text(count) + " files"@,
        error_text(Ink(false), text) == "error: "@ + text,
        removed_text(ink, text) == inked(ink, Tone::Dim, "removed"@) + " "@ + inked(
            ink,
            Tone::Bold,
            text,
        ),
        marked_text(ink, count) == inked(ink, Tone::Dim, "marked"@) + " "@ + inked(
            ink,
            Tone::Green,
            decimal_text(count),
        ) + " "@ + inked(ink, Tone::Dim, "files"@),
        error_text(ink, text) == inked(ink, Tone::Red, "error:"@) + " "@ + text,
{
    reveal_strlit(" ");
    reveal_strlit("removed");
    reveal_strlit("removed ");
    reveal_strlit("marked");
    reveal_strlit("marked ");
    reveal_strlit("files");
    reveal_strlit(" files");
    reveal_strlit("error:");
    reveal_strlit("error: ");
    assert("removed "@ =~= "removed"@ + " "@);
    assert("marked "@ =~= "marked"@ + " "@);
    assert(" files"@ =~= " "@ + "files"@);
    assert("error: "@ =~= "error:"@ + " "@);
    assert(marked_text(Ink(false), count) =~= "marked "@ + decimal_text(count) + " files"@);
}

/// The notice of a mark determines its count.
pub proof fn law_notice_tells_the_count(ink: Ink, a: nat, b: nat)
    requires
        marked_text(ink, a) == marked_text(ink, b),
    ensures
        a == b,
{
    reveal_strlit(" ");
    reveal_strlit("\x1b[32m");
    reveal_strlit("\x1b[0m");
    let on = |s: Seq<char>|
        if ink.0 {
            s
        } else {
            Seq::<char>::empty()
        };
    let start = inked(ink, Tone::Dim, "marked"@) + " "@ + on("\x1b[32m"@);
    let tail = on("\x1b[0m"@) + " "@ + inked(ink, Tone::Dim, "files"@);
    assert(marked_text(ink, a) =~= start + (decimal_text(a) + tail));
    assert(marked_text(ink, b) =~= start + (decimal_text(b) + tail));
    lemma_same_start(start, decimal_text(a) + tail, decimal_text(b) + tail);
    assert(tail[0] == ' ' || tail[0] == '\x1b');
    lemma_digits_end(a, tail, b, tail);
}

/// A command that names no consumer works for `default`, and one that fails
/// exits with a code of its own.
pub proof fn law_defaults()
    ensures
        DEFAULT_CONSUMER@ == "default"@,
        FAILURE == 2,
{
}

} // verus!
