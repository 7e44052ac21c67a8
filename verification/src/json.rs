//! JSON text.

use crate::text::{hex_text, joined, texts};
use vstd::prelude::*;

verus! {

/// A character inside a JSON string: quote, backslash and the control
/// characters are escaped, every other stands for itself.
pub open spec fn json_char(c: char) -> Seq<char> {
    if c == '"' {
        seq!['\\', '"']
    } else if c == '\\' {
        seq!['\\', '\\']
    } else if c as u32 == 0x8 {
        seq!['\\', 'b']
    } else if c == '\t' {
        seq!['\\', 't']
    } else if c == '\n' {
        seq!['\\', 'n']
    } else if c as u32 == 0xc {
        seq!['\\', 'f']
    } else if c == '\r' {
        seq!['\\', 'r']
    } else if (c as u32) < 0x20 {
        seq!['\\', 'u'] + hex_text(c as nat, 4)
    } else {
        seq![c]
    }
}

/// The characters of a string as they stand inside the quotes.
pub open spec fn json_chars(s: Seq<char>) -> Seq<char>
    decreases s.len(),
{
    if s.len() == 0 {
        Seq::<char>::empty()
    } else {
        json_chars(s.drop_last()) + json_char(s.last())
    }
}

/// A JSON string.
pub open spec fn json_string(s: Seq<char>) -> Seq<char> {
    seq!['"'] + json_chars(s) + seq!['"']
}

/// A JSON array of values that are JSON text already, without white space.
pub open spec fn json_array(values: Seq<Seq<char>>) -> Seq<char> {
    seq!['['] + joined(values, ","@) + seq![']']
}

/// A JSON array of strings.
pub open spec fn json_strings(strings: Seq<Seq<char>>) -> Seq<char> {
    json_array(strings.map_values(|s: Seq<char>| json_string(s)))
}

/// `serde_json::to_string` of a string. It writes the string between quotes,
/// escaped; writing a string to memory never fails.
#[verifier::external_body]
pub(crate) fn string_to_json(value: &str) -> (r: Option<String>)
    ensures
        r is Some,
        r->Some_0@ == json_string(value@),
{
    serde_json::to_string(value).ok()
}

/// `serde_json::to_string` of a vector of strings. It writes the strings in
/// order, with a comma and no white space between each two; writing strings to
/// memory never fails.
#[verifier::external_body]
pub(crate) fn strings_to_json(values: &Vec<String>) -> (r: Option<String>)
    ensures
        r is Some,
        r->Some_0@ == json_strings(texts(values@)),
{
    serde_json::to_string(values).ok()
}

} // verus!
