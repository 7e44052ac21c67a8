//! What holds of texts: how they are taken apart and put together, how numbers
//! are written, and in which order strings stand.

use super::{lemma_filter_all_filled, lemma_pieces_free, lemma_split_append, lemma_split_join};
use crate::cmd::separator;
use crate::git::{decoded, patched};
use crate::order::{before, bytes_before, parts_at, sorted, strictly_sorted};
use crate::text::{
    decimal_text, fields, filled, hex_text, joined, lemma_split_on_some, split_on,
    texts, trimmed, white,
};
use vstd::prelude::*;
use vstd::utf8::*;

verus! {

/// The contents of a list of strings are those of each string, in order.
pub proof fn law_texts(strings: Seq<String>)
    ensures
        texts(strings).len() == strings.len(),
        forall|i: int| 0 <= i < strings.len() ==> #[trigger] texts(strings)[i] == strings[i]@,
{
}

/// Joining nothing gives nothing, joining one text gives that text, and between
/// two lists of texts that are joined stands one separator.
pub proof fn law_joined(a: Seq<Seq<char>>, b: Seq<Seq<char>>, x: Seq<char>, sep: Seq<char>)
    ensures
        joined(Seq::<Seq<char>>::empty(), sep) == Seq::<char>::empty(),
        joined(seq![x], sep) == x,
        a.len() > 0 && b.len() > 0 ==> joined(a + b, sep) == joined(a, sep) + sep + joined(b, sep),
    decreases b.len(),
{
    if a.len() > 0 && b.len() > 0 {
        assert((a + b).drop_last() =~= a + b.drop_last());
        assert((a + b).last() == b.last());
        if b.len() == 1 {
            assert(a + b.drop_last() =~= a);
            assert(b[0] == b.last());
        } else {
            law_joined(a, b.drop_last(), x, sep);
            assert(joined(a, sep) + sep + joined(b.drop_last(), sep) + sep + b.last() =~= joined(
                a,
                sep,
            ) + sep + joined(b, sep));
        }
    }
}

/// Splitting loses nothing: the pieces joined by the separator are the text, and
/// no piece holds the separator.
pub proof fn law_split_keeps_the_text(s: Seq<char>, sep: char)
    ensures
        split_on(s, sep).len() > 0,
        joined(split_on(s, sep), seq![sep]) == s,
        forall|i: int|
            0 <= i < split_on(s, sep).len() ==> !(#[trigger] split_on(s, sep)[i]).contains(sep),
    decreases s.len(),
{
    lemma_split_on_some(s, sep);
    let parts = split_on(s, sep);
    assert forall|i: int| 0 <= i < parts.len() implies !(#[trigger] parts[i]).contains(sep) by {
        lemma_pieces_free(s, sep, i);
    }
    if s.len() == 0 {
        assert(joined(parts, seq![sep]) =~= s);
    } else {
        let head = split_on(s.drop_last(), sep);
        law_split_keeps_the_text(s.drop_last(), sep);
        if s.last() == sep {
            assert(parts.drop_last() =~= head);
            assert(joined(parts, seq![sep]) =~= s.drop_last() + seq![sep] + Seq::<char>::empty());
            assert(joined(parts, seq![sep]) =~= s);
        } else {
            assert(parts.drop_last() =~= head.drop_last());
            assert(parts.last() =~= head.last().push(s.last()));
            if head.len() == 1 {
                assert(parts[0] == parts.last() && head[0] == head.last());
            } else {
                assert(joined(parts, seq![sep]) =~= joined(head, seq![sep]).push(s.last()));
            }
            assert(joined(parts, seq![sep]) =~= s);
        }
    }
}

/// Splitting undoes a join of texts that do not hold the separator.
pub proof fn law_split_undoes_a_join(parts: Seq<Seq<char>>, sep: char)
    requires
        parts.len() > 0,
        forall|i: int| 0 <= i < parts.len() ==> !(#[trigger] parts[i]).contains(sep),
    ensures
        split_on(joined(parts, seq![sep]), sep) == parts,
    decreases parts.len(),
{
    let last = parts.last();
    assert(last == parts[parts.len() - 1]);
    lemma_split_one(last, sep);
    if parts.len() == 1 {
        assert(parts =~= seq![last]);
    } else {
        let head = parts.drop_last();
        assert forall|i: int| 0 <= i < head.len() implies !(#[trigger] head[i]).contains(sep) by {
            assert(head[i] == parts[i]);
        }
        law_split_undoes_a_join(head, sep);
        let start = joined(head, seq![sep]);
        assert(joined(parts, seq![sep]) =~= start.push(sep) + last);
        lemma_split_join(start, last, sep);
        assert(head + seq![last] =~= parts);
    }
}

pub(super) proof fn lemma_split_one(x: Seq<char>, sep: char)
    requires
        !x.contains(sep),
    ensures
        split_on(x, sep) == seq![x],
{
    let none = Seq::<char>::empty();
    lemma_split_append(none, x, sep);
    assert(none + x =~= x);
    assert(split_on(x, sep) =~= seq![x]);
}

/// What is read off a stream: nothing of an empty text, one path of a text
/// without separator, and of two texts with a separator between them the paths
/// of the first and then those of the second.
pub proof fn law_fields(a: Seq<char>, b: Seq<char>, x: Seq<char>, sep: char)
    ensures
        fields(Seq::<char>::empty(), sep) == Seq::<Seq<char>>::empty(),
        x.len() > 0 && !x.contains(sep) ==> fields(x, sep) == seq![x],
        fields(a.push(sep) + b, sep) == fields(a, sep) + fields(b, sep),
{
    let none = Seq::<char>::empty();
    reveal_with_fuel(Seq::filter, 2);
    lemma_split_one(none, sep);
    assert(seq![none].drop_last() =~= Seq::<Seq<char>>::empty());
    if x.len() > 0 && !x.contains(sep) {
        lemma_split_one(x, sep);
        assert(seq![x].drop_last() =~= Seq::<Seq<char>>::empty());
        assert(fields(x, sep) =~= seq![x]);
    }
    lemma_split_join(a, b, sep);
    Seq::filter_distributes_over_add(split_on(a, sep), split_on(b, sep), filled());
}

/// Paths with one separator between each two, and none at the end, are read off
/// the stream as these paths.
pub proof fn law_fields_undo_a_join(paths: Seq<Seq<char>>, sep: char)
    requires
        forall|i: int|
            0 <= i < paths.len() ==> (#[trigger] paths[i]).len() > 0 && !paths[i].contains(sep),
    ensures
        fields(joined(paths, seq![sep]), sep) == paths,
{
    if paths.len() == 0 {
        law_fields(Seq::empty(), Seq::empty(), Seq::empty(), sep);
        assert(paths =~= Seq::<Seq<char>>::empty());
    } else {
        law_split_undoes_a_join(paths, sep);
        lemma_filter_all_filled(paths);
    }
}

/// A selection that is piped in, NUL-separated with `null` and a line each
/// without, is read as the paths that it was made of, whether or not the last
/// one is ended by a separator too.
pub proof fn law_piped_selection(paths: Seq<Seq<char>>, null: bool)
    requires
        forall|i: int|
            0 <= i < paths.len() ==> (#[trigger] paths[i]).len() > 0 && !paths[i].contains(
                if null {
                    '\0'
                } else {
                    '\n'
                },
            ),
    ensures
        ({
            let sep = if null {
                '\0'
            } else {
                '\n'
            };
            let text = joined(paths, seq![sep]);
            &&& fields(decoded(encode_utf8(text)), separator(null)) == paths
            &&& fields(decoded(encode_utf8(text.push(sep))), separator(null)) == paths
        }),
{
    let sep = if null {
        '\0'
    } else {
        '\n'
    };
    let text = joined(paths, seq![sep]);
    let none = Seq::<char>::empty();
    law_decoded(text, Seq::empty());
    law_decoded(text.push(sep), Seq::empty());
    law_fields_undo_a_join(paths, sep);
    law_fields(text, none, none, sep);
    assert(text.push(sep) + none =~= text.push(sep));
    assert(paths + Seq::<Seq<char>>::empty() =~= paths);
}

/// Text that arrives as UTF-8 is read as it was written; of other bytes the text
/// is what the decoder makes of them.
pub proof fn law_decoded(text: Seq<char>, bytes: Seq<u8>)
    ensures
        decoded(encode_utf8(text)) == text,
        !valid_utf8(bytes) ==> decoded(bytes) == patched(bytes),
{
    encode_utf8_valid_utf8(text);
    encode_utf8_decode_utf8(text);
}

/// All characters of a text are white space.
pub open spec fn blank(s: Seq<char>) -> bool {
    forall|i: int| 0 <= i < s.len() ==> white(#[trigger] s[i])
}

/// Trimming takes off the white space at both ends and nothing else.
pub proof fn law_trimmed(lead: Seq<char>, text: Seq<char>, trail: Seq<char>)
    requires
        blank(lead),
        blank(trail),
        text.len() > 0 ==> !white(text[0]) && !white(text.last()),
    ensures
        trimmed(lead + text + trail) == text,
    decreases lead.len() + trail.len(),
{
    let all = lead + text + trail;
    if lead.len() > 0 {
        assert(all[0] == lead[0]);
        let rest = lead.drop_first();
        assert forall|i: int| 0 <= i < rest.len() implies white(#[trigger] rest[i]) by {
            assert(rest[i] == lead[i + 1]);
        }
        assert(all.drop_first() =~= rest + text + trail);
        law_trimmed(rest, text, trail);
    } else if trail.len() > 0 {
        let rest = trail.drop_last();
        assert forall|i: int| 0 <= i < rest.len() implies white(#[trigger] rest[i]) by {
            assert(rest[i] == trail[i]);
        }
        assert(all.last() == trail[trail.len() - 1]);
        assert(all.drop_last() =~= lead + text + rest);
        law_trimmed(lead, text, rest);
        if text.len() > 0 {
            assert(all[0] == text[0]);
        } else {
            assert(all[0] == trail[0]);
            let tail = trail.drop_first();
            assert forall|i: int| 0 <= i < tail.len() implies white(#[trigger] tail[i]) by {
                assert(tail[i] == trail[i + 1]);
            }
            assert(all.drop_first() =~= lead + text + tail);
            law_trimmed(lead, text, tail);
        }
    } else {
        assert(all =~= text);
    }
}

/// White space: the blanks and line ends of ASCII, and those beyond it.
pub proof fn law_white(c: char)
    ensures
        white(c) <==> {
            let u = c as int;
            ||| seq![9int, 10, 11, 12, 13, 32].contains(u)
            ||| seq![133int, 160, 5760, 8232, 8233, 8239, 8287, 12288].contains(u)
            ||| 8192 <= u <= 8202
        },
{
    let u = c as int;
    let a = seq![9int, 10, 11, 12, 13, 32];
    let b = seq![133int, 160, 5760, 8232, 8233, 8239, 8287, 12288];
    assert(a[0] == 9 && a[1] == 10 && a[2] == 11 && a[3] == 12 && a[4] == 13 && a[5] == 32);
    assert(b[0] == 133 && b[1] == 160 && b[2] == 5760 && b[3] == 8232 && b[4] == 8233 && b[5]
        == 8239 && b[6] == 8287 && b[7] == 12288);
}

/// The value of a digit, in bases up to sixteen.
pub open spec fn digit_value(c: char) -> int {
    if '0' <= c <= '9' {
        c as int - '0' as int
    } else {
        c as int - 'a' as int + 10
    }
}

/// The number that a text stands for in a base.
pub open spec fn number(s: Seq<char>, base: int) -> int
    decreases s.len(),
{
    if s.len() == 0 {
        0
    } else {
        number(s.drop_last(), base) * base + digit_value(s.last())
    }
}

/// A number is written in decimal digits, without leading zeros, and reading
/// them gives the number back.
pub proof fn law_decimal(n: nat)
    ensures
        number(decimal_text(n), 10) == n,
        decimal_text(n).len() > 0,
        decimal_text(n).len() > 1 ==> decimal_text(n)[0] != '0',
        forall|i: int|
            0 <= i < decimal_text(n).len() ==> '0' <= (#[trigger] decimal_text(n)[i]) <= '9',
    decreases n,
{
    let s = decimal_text(n);
    if n < 10 {
        assert(s.drop_last() =~= Seq::<char>::empty());
        assert(number(s.drop_last(), 10) == 0);
    } else {
        law_decimal(n / 10);
        let head = decimal_text(n / 10);
        assert(s.drop_last() =~= head);
        assert(s[0] == head[0]);
        if head.len() == 1 {
            reveal_with_fuel(number, 2);
            assert(head.drop_last() =~= Seq::<char>::empty());
            assert(head.last() == head[0]);
        }
    }
}

/// Different numbers are written differently.
pub proof fn law_decimal_tells_apart(a: nat, b: nat)
    requires
        decimal_text(a) == decimal_text(b),
    ensures
        a == b,
{
    law_decimal(a);
    law_decimal(b);
}

/// How many numbers there are of `width` hexadecimal digits.
pub open spec fn hex_range(width: nat) -> nat
    decreases width,
{
    if width == 0 {
        1
    } else {
        16 * hex_range((width - 1) as nat)
    }
}

/// A number is written in the asked-for count of lower-case hexadecimal digits,
/// and where it fits into them, reading them gives the number back.
pub proof fn law_hex(n: nat, width: nat)
    ensures
        hex_text(n, width).len() == width,
        n < hex_range(width) ==> number(hex_text(n, width), 16) == n,
        forall|i: int|
            0 <= i < width ==> '0' <= (#[trigger] hex_text(n, width)[i]) <= '9' || 'a' <= hex_text(
                n,
                width,
            )[i] <= 'f',
    decreases width,
{
    if width > 0 {
        let s = hex_text(n, width);
        law_hex(n / 16, (width - 1) as nat);
        assert(s.drop_last() =~= hex_text(n / 16, (width - 1) as nat));
    }
}

/// Sixteen digits hold every 64-bit number.
pub proof fn law_hex16(n: u64)
    ensures
        hex_text(n as nat, 16).len() == 16,
        number(hex_text(n as nat, 16), 16) == n,
{
    reveal_with_fuel(hex_range, 17);
    law_hex(n as nat, 16);
}

/// A listing is in strict order: what stands earlier is smaller.
pub proof fn law_strictly_sorted(s: Seq<Seq<char>>)
    ensures
        strictly_sorted(s) <==> forall|i: int, j: int|
            0 <= i < j < s.len() ==> before(#[trigger] s[i], #[trigger] s[j]),
{
}

/// A sorted list has nothing smaller behind anything.
pub proof fn law_sorted(s: Seq<Seq<char>>)
    ensures
        sorted(s) <==> forall|i: int, j: int|
            0 <= i < j < s.len() ==> !before(#[trigger] s[j], #[trigger] s[i]),
{
}

proof fn lemma_encode_add(a: Seq<char>, b: Seq<char>)
    ensures
        encode_utf8(a + b) == encode_utf8(a) + encode_utf8(b),
    decreases a.len(),
{
    if a.len() == 0 {
        assert(a + b =~= b);
        assert(encode_utf8(a) + encode_utf8(b) =~= encode_utf8(b));
    } else {
        lemma_encode_add(a.drop_first(), b);
        assert((a + b).drop_first() =~= a.drop_first() + b);
        assert(encode_utf8(a + b) =~= encode_utf8(a) + encode_utf8(b));
    }
}

/// A text stands before every longer one that starts with it.
pub proof fn law_order_of_a_prefix(a: Seq<char>, b: Seq<char>)
    requires
        b.len() > 0,
    ensures
        before(a, a + b),
{
    lemma_encode_add(a, b);
    char_is_scalar(b[0]);
    let x = encode_utf8(a);
    let y = encode_utf8(a + b);
    assert(encode_scalar(b[0] as u32).len() > 0);
    assert(parts_at(x, y, x.len() as int));
}

/// The encoding of a smaller scalar parts from that of a larger one at some
/// byte, where it is smaller.
proof fn lemma_scalar_order(u: u32, v: u32) -> (k: int)
    requires
        is_scalar(u),
        is_scalar(v),
        u < v,
    ensures
        0 <= k < encode_scalar(u).len(),
        k < encode_scalar(v).len(),
        encode_scalar(u)[k] < encode_scalar(v)[k],
        forall|j: int| 0 <= j < k ==> encode_scalar(u)[j] == encode_scalar(v)[j],
{
    assert(u <= 0x7f ==> (u & 0x7F) as u8 == u as u8 && (u & 0x7f) as u8 <= 0x7f) by (bit_vector);
    assert(v <= 0x7f ==> (v & 0x7F) as u8 == v as u8 && (v & 0x7f) as u8 <= 0x7f) by (bit_vector);
    assert(u <= 0x7f ==> (u as u8) as u32 == u) by (bit_vector);
    assert(v <= 0x7f ==> (v as u8) as u32 == v) by (bit_vector);
    assert(0xC0 <= (0xC0u8 | ((u >> 6) & 0x1F) as u8) <= 0xDF) by (bit_vector);
    assert(0xC0 <= (0xC0u8 | ((v >> 6) & 0x1F) as u8) <= 0xDF) by (bit_vector);
    assert(0xE0 <= (0xE0u8 | ((u >> 12) & 0x0F) as u8) <= 0xEF) by (bit_vector);
    assert(0xE0 <= (0xE0u8 | ((v >> 12) & 0x0F) as u8) <= 0xEF) by (bit_vector);
    assert(0xF0 <= (0xF0u8 | ((v >> 18) & 0x7) as u8)) by (bit_vector);
    if has_width_2_encoding(u) && has_width_2_encoding(v) {
        let a1 = leading_byte_width_2(u);
        let b1 = leading_byte_width_2(v);
        let a2 = last_continuation_byte(u);
        let b2 = last_continuation_byte(v);
        assert(0x80 <= u <= 0x7ff && 0x80 <= v <= 0x7ff && u < v ==> {
            let x1 = 0xC0u8 | ((u >> 6) & 0x1F) as u8;
            let y1 = 0xC0u8 | ((v >> 6) & 0x1F) as u8;
            let x2 = 0x80u8 | (u & 0x3F) as u8;
            let y2 = 0x80u8 | (v & 0x3F) as u8;
            x1 < y1 || (x1 == y1 && x2 < y2)
        }) by (bit_vector);
        if a1 < b1 {
            0
        } else {
            assert(a1 == b1 && a2 < b2);
            1
        }
    } else if has_width_3_encoding(u) && has_width_3_encoding(v) {
        let a1 = leading_byte_width_3(u);
        let b1 = leading_byte_width_3(v);
        let a2 = second_last_continuation_byte(u);
        let b2 = second_last_continuation_byte(v);
        let a3 = last_continuation_byte(u);
        let b3 = last_continuation_byte(v);
        assert(0x800 <= u <= 0xffff && 0x800 <= v <= 0xffff && u < v ==> {
            let x1 = 0xE0u8 | ((u >> 12) & 0x0F) as u8;
            let y1 = 0xE0u8 | ((v >> 12) & 0x0F) as u8;
            let x2 = 0x80u8 | ((u >> 6) & 0x3F) as u8;
            let y2 = 0x80u8 | ((v >> 6) & 0x3F) as u8;
            let x3 = 0x80u8 | (u & 0x3F) as u8;
            let y3 = 0x80u8 | (v & 0x3F) as u8;
            x1 < y1 || (x1 == y1 && (x2 < y2 || (x2 == y2 && x3 < y3)))
        }) by (bit_vector);
        if a1 < b1 {
            0
        } else if a2 < b2 {
            assert(a1 == b1);
            1
        } else {
            assert(a1 == b1 && a2 == b2 && a3 < b3);
            2
        }
    } else if has_width_4_encoding(u) && has_width_4_encoding(v) {
        let a1 = leading_byte_width_4(u);
        let b1 = leading_byte_width_4(v);
        let a2 = third_last_continuation_byte(u);
        let b2 = third_last_continuation_byte(v);
        let a3 = second_last_continuation_byte(u);
        let b3 = second_last_continuation_byte(v);
        let a4 = last_continuation_byte(u);
        let b4 = last_continuation_byte(v);
        assert(0x10000 <= u <= 0x10ffff && 0x10000 <= v <= 0x10ffff && u < v ==> {
            let x1 = 0xF0u8 | ((u >> 18) & 0x7) as u8;
            let y1 = 0xF0u8 | ((v >> 18) & 0x7) as u8;
            let x2 = 0x80u8 | ((u >> 12) & 0x3F) as u8;
            let y2 = 0x80u8 | ((v >> 12) & 0x3F) as u8;
            let x3 = 0x80u8 | ((u >> 6) & 0x3F) as u8;
            let y3 = 0x80u8 | ((v >> 6) & 0x3F) as u8;
            let x4 = 0x80u8 | (u & 0x3F) as u8;
            let y4 = 0x80u8 | (v & 0x3F) as u8;
            x1 < y1 || (x1 == y1 && (x2 < y2 || (x2 == y2 && (x3 < y3 || (x3 == y3 && x4 < y4)))))
        }) by (bit_vector);
        if a1 < b1 {
            0
        } else if a2 < b2 {
            assert(a1 == b1);
            1
        } else if a3 < b3 {
            assert(a1 == b1 && a2 == b2);
            2
        } else {
            assert(a1 == b1 && a2 == b2 && a3 == b3 && a4 < b4);
            3
        }
    } else {
        0
    }
}

/// Where two texts part, the one with the smaller character stands first,
/// whatever follows.
pub proof fn law_order_by_character(
    start: Seq<char>,
    c: char,
    x: Seq<char>,
    d: char,
    y: Seq<char>,
)
    requires
        c < d,
    ensures
        before(start.push(c) + x, start.push(d) + y),
{
    char_is_scalar(c);
    char_is_scalar(d);
    let k = lemma_scalar_order(c as u32, d as u32);
    lemma_encode_add(start, seq![c] + x);
    lemma_encode_add(start, seq![d] + y);
    assert(start.push(c) + x =~= start + (seq![c] + x));
    assert(start.push(d) + y =~= start + (seq![d] + y));
    assert((seq![c] + x).drop_first() =~= x);
    assert((seq![d] + y).drop_first() =~= y);
    let p = encode_utf8(start);
    let u = encode_scalar(c as u32);
    let v = encode_scalar(d as u32);
    let left = encode_utf8(start.push(c) + x);
    let right = encode_utf8(start.push(d) + y);
    assert(left == p + (u + encode_utf8(x)));
    assert(right == p + (v + encode_utf8(y)));
    let i = p.len() + k;
    assert(left[i] == u[k] && right[i] == v[k]);
    assert forall|j: int| 0 <= j < i implies #[trigger] left[j] == right[j] by {
        if j >= p.len() {
            assert(u[j - p.len()] == v[j - p.len()]);
        }
    }
    assert(parts_at(left, right, i));
    assert(bytes_before(left, right));
}

} // verus!
