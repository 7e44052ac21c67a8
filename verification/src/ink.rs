//! Colour, and the notices that use it.
//!
//! The change set is data and stays uncoloured; what is here is for the person
//! who watches. Each stream is tested on its own: that one is a pipe says
//! nothing about the other.

use crate::text::{decimal, decimal_text};
use clap::builder::styling::{AnsiColor, Effects, Style};
use vstd::prelude::*;

verus! {

/// How a piece of text is set off.
#[derive(PartialEq, Eq, Structural, Clone, Copy)]
pub enum Tone {
    Bold,
    Dim,
    Red,
    Green,
    Yellow,
    Cyan,
}

/// The escape sequence that turns a tone on.
pub open spec fn escape(tone: Tone) -> Seq<char> {
    match tone {
        Tone::Bold => "\x1b[1m"@,
        Tone::Dim => "\x1b[2m"@,
        Tone::Red => "\x1b[31m"@,
        Tone::Green => "\x1b[32m"@,
        Tone::Yellow => "\x1b[33m"@,
        Tone::Cyan => "\x1b[36m"@,
    }
}

/// The escape sequence that ends every tone.
pub open spec fn reset() -> Seq<char> {
    "\x1b[0m"@
}

/// `clap::builder::styling::Style::render`, on the style of `tone`: bold and
/// dimmed are effects, the others are foreground colours. It writes the escape
/// sequence of that one effect or colour and nothing else.
#[verifier::external_body]
fn render(tone: Tone) -> (r: String)
    ensures
        r@ == escape(tone),
{
    let style = match tone {
        Tone::Bold => Style::new().effects(Effects::BOLD),
        Tone::Dim => Style::new().effects(Effects::DIMMED),
        Tone::Red => AnsiColor::Red.on_default(),
        Tone::Green => AnsiColor::Green.on_default(),
        Tone::Yellow => AnsiColor::Yellow.on_default(),
        Tone::Cyan => AnsiColor::Cyan.on_default(),
    };
    style.render().to_string()
}

/// `clap::builder::styling::Style::render_reset`, on the style of `tone`: as
/// none of these styles is plain, it writes the reset sequence.
#[verifier::external_body]
fn render_reset(tone: Tone) -> (r: String)
    ensures
        r@ == reset(),
{
    let style = match tone {
        Tone::Bold => Style::new().effects(Effects::BOLD),
        Tone::Dim => Style::new().effects(Effects::DIMMED),
        Tone::Red => AnsiColor::Red.on_default(),
        Tone::Green => AnsiColor::Green.on_default(),
        Tone::Yellow => AnsiColor::Yellow.on_default(),
        Tone::Cyan => AnsiColor::Cyan.on_default(),
    };
    style.render_reset().to_string()
}

/// Whether text is coloured.
#[derive(PartialEq, Eq, Structural, Clone, Copy)]
pub struct Ink(pub bool);

/// `text` in a tone where colour is on, and as it is where colour is off.
pub open spec fn inked(ink: Ink, tone: Tone, text: Seq<char>) -> Seq<char> {
    if ink.0 {
        escape(tone) + text + reset()
    } else {
        text
    }
}

impl Ink {
    /// Colour for a stream: on a terminal, unless the user asks for none.
    pub fn new(is_terminal: bool, no_color: bool) -> (r: Self)
        ensures
            r.0 == (is_terminal && !no_color),
    {
        Ink(is_terminal && !no_color)
    }

    fn wrap(&self, tone: Tone, text: &str) -> (r: String)
        ensures
            r@ == inked(*self, tone, text@),
    {
        if self.0 {
            let mut r = render(tone);
            r.append(text);
            r.append(render_reset(tone).as_str());
            r
        } else {
            text.to_owned()
        }
    }

    pub fn bold(&self, text: &str) -> (r: String)
        ensures
            r@ == inked(*self, Tone::Bold, text@),
    {
        self.wrap(Tone::Bold, text)
    }

    pub fn dim(&self, text: &str) -> (r: String)
        ensures
            r@ == inked(*self, Tone::Dim, text@),
    {
        self.wrap(Tone::Dim, text)
    }

    pub fn red(&self, text: &str) -> (r: String)
        ensures
            r@ == inked(*self, Tone::Red, text@),
    {
        self.wrap(Tone::Red, text)
    }

    pub fn green(&self, text: &str) -> (r: String)
        ensures
            r@ == inked(*self, Tone::Green, text@),
    {
        self.wrap(Tone::Green, text)
    }

    pub fn yellow(&self, text: &str) -> (r: String)
        ensures
            r@ == inked(*self, Tone::Yellow, text@),
    {
        self.wrap(Tone::Yellow, text)
    }

    pub fn cyan(&self, text: &str) -> (r: String)
        ensures
            r@ == inked(*self, Tone::Cyan, text@),
    {
        self.wrap(Tone::Cyan, text)
    }
}

/// An age in seconds, at the coarsest unit that still says something.
pub open spec fn age_text(secs: nat) -> Seq<char> {
    if secs < 60 {
        "just now"@
    } else if secs < 3600 {
        decimal_text(secs / 60) + "m ago"@
    } else if secs < 86400 {
        decimal_text(secs / 3600) + "h ago"@
    } else {
        decimal_text(secs / 86400) + "d ago"@
    }
}

/// The age at `now` of an instant; one in the future has no age.
pub open spec fn age(now: u64, then: u64) -> nat {
    if now < then {
        0
    } else {
        (now - then) as nat
    }
}

/// How long before `now` an instant was, both in unix seconds. A clock that
/// moved backwards reads as "just now" rather than a negative age.
pub fn ago_at(now: u64, unix_secs: u64) -> (r: String)
    ensures
        r@ == age_text(age(now, unix_secs)),
{
    let secs: u64 = if now < unix_secs {
        0
    } else {
        now - unix_secs
    };
    if secs < 60 {
        return "just now".to_owned();
    }
    if secs < 3600 {
        let mut r = decimal(secs / 60);
        r.append("m ago");
        return r;
    }
    if secs < 86400 {
        let mut r = decimal(secs / 3600);
        r.append("h ago");
        return r;
    }
    let mut r = decimal(secs / 86400);
    r.append("d ago");
    r
}

/// `SystemTime::now` as the seconds since the unix epoch; `None` on a clock
/// that stands before the epoch. Nothing is said of the value: it is the
/// clock's.
#[verifier::external_body]
fn unix_now() -> (r: Option<u64>) {
    match std::time::SystemTime::now().duration_since(std::time::UNIX_EPOCH) {
        Ok(elapsed) => Some(elapsed.as_secs()),
        Err(_) => None,
    }
}

/// The instant that a clock shows, in unix seconds; one that stands before the
/// epoch (`None`) counts as one at the epoch.
pub open spec fn shown(clock: Option<u64>) -> u64 {
    match clock {
        Some(secs) => secs,
        None => 0,
    }
}

/// How long ago a unix-seconds instant was by a clock.
pub fn ago_by(clock: Option<u64>, unix_secs: u64) -> (r: String)
    ensures
        r@ == age_text(age(shown(clock), unix_secs)),
{
    let now: u64 = match clock {
        Some(secs) => secs,
        None => 0,
    };
    ago_at(now, unix_secs)
}

/// How long ago a unix-seconds instant was by the clock of this machine,
/// whatever that clock shows.
pub fn ago(unix_secs: u64) -> (r: String)
    ensures
        exists|clock: Option<u64>| r@ == age_text(age(#[trigger] shown(clock), unix_secs)),
{
    let clock = unix_now();
    ago_by(clock, unix_secs)
}

/// The notice that `path` was removed.
pub open spec fn removed_text(ink: Ink, path: Seq<char>) -> Seq<char> {
    inked(ink, Tone::Dim, "removed"@) + " "@ + inked(ink, Tone::Bold, path)
}

/// The notice that `path` was removed.
pub fn removed(ink: &Ink, path: &str) -> (r: String)
    ensures
        r@ == removed_text(*ink, path@),
{
    let mut r = ink.dim("removed");
    r.append(" ");
    r.append(ink.bold(path).as_str());
    r
}

/// The notice that `count` files were marked.
pub open spec fn marked_text(ink: Ink, count: nat) -> Seq<char> {
    inked(ink, Tone::Dim, "marked"@) + " "@ + inked(ink, Tone::Green, decimal_text(count)) + " "@
        + inked(ink, Tone::Dim, "files"@)
}

/// The notice that `count` files were marked.
pub fn marked_files(ink: &Ink, count: usize) -> (r: String)
    ensures
        r@ == marked_text(*ink, count as nat),
{
    let mut r = ink.dim("marked");
    r.append(" ");
    r.append(ink.green(decimal(count as u64).as_str()).as_str());
    r.append(" ");
    r.append(ink.dim("files").as_str());
    r
}

/// The notice that a command failed.
pub open spec fn error_text(ink: Ink, message: Seq<char>) -> Seq<char> {
    inked(ink, Tone::Red, "error:"@) + " "@ + message
}

/// The notice that a command failed.
pub fn error_notice(ink: &Ink, message: &str) -> (r: String)
    ensures
        r@ == error_text(*ink, message@),
{
    let mut r = ink.red("error:");
    r.append(" ");
    r.append(message);
    r
}

} // verus!
