//! What the clipboard round trip decides without touching the system: whether
//! a window is a game client, which modifier keys are held, and how a round
//! trip went.
use vstd::prelude::*;

use crate::text::{chars_of, contains, has_infix, lower, lowercase_chars, push_str_chars, string_of, trim, trim_chars};

verus! {

/// Failure modes of a clipboard round trip. Every one is detectable, so a
/// caller can fail closed instead of guessing.
#[derive(Clone, Debug, PartialEq, Eq)]
pub enum ClipboardError {
    /// The client never touched the clipboard inside the deadline.
    Timeout { waited_nanos: u64 },
    /// Opening the clipboard kept losing to another owner.
    Busy { attempts: u32 },
    /// The clipboard changed but held no Unicode text.
    NoText,
    /// The input call did not deliver the whole key sequence.
    InputRejected { delivered: u32, expected: u32 },
    /// A system call failed outright.
    Os { operation: String, code: i32 },
}

impl ClipboardError {
    /// Whether another copy may still succeed: the client did not answer in
    /// time, another program held the clipboard, or the payload carried no
    /// text yet. A rejected key sequence or a failed system call does not
    /// mend itself.
    pub fn is_transient(&self) -> (b: bool)
        ensures
            b == (self is Timeout || self is Busy || self is NoText),
    {
        match self {
            ClipboardError::Timeout { .. } => true,
            ClipboardError::Busy { .. } => true,
            ClipboardError::NoText => true,
            ClipboardError::InputRejected { .. } => false,
            ClipboardError::Os { .. } => false,
        }
    }
}

/// A completed round trip, with times in nanoseconds.
#[derive(Clone, Debug)]
pub struct CopyOutcome {
    /// Raw clipboard payload.
    pub text: String,
    /// From sending the keys to the clipboard sequence number changing.
    pub client_round_trip_nanos: u64,
    /// Time spent opening and draining the clipboard afterwards.
    pub read_time_nanos: u64,
    /// How many attempts opening the clipboard needed.
    pub open_attempts: u32,
}

impl CopyOutcome {
    /// The whole round trip, in nanoseconds.
    pub fn total(&self) -> (t: u128)
        ensures
            t == self.client_round_trip_nanos + self.read_time_nanos,
    {
        self.client_round_trip_nanos as u128 + self.read_time_nanos as u128
    }
}

/// The physical modifier keys held down.
#[derive(Clone, Copy, Debug, Default, PartialEq, Eq, Structural)]
pub struct HeldModifiers {
    pub control: bool,
    pub shift: bool,
    pub alt: bool,
}

/// The held keys joined by `+`, or `none`.
pub open spec fn held_names(m: HeldModifiers) -> Seq<char> {
    let names = if m.control {
        seq!["Ctrl"@]
    } else {
        Seq::empty()
    } + if m.shift {
        seq!["Shift"@]
    } else {
        Seq::empty()
    } + if m.alt {
        seq!["Alt"@]
    } else {
        Seq::empty()
    };
    if names.len() == 0 {
        "none"@
    } else if names.len() == 1 {
        names[0]
    } else if names.len() == 2 {
        names[0] + "+"@ + names[1]
    } else {
        names[0] + "+"@ + names[1] + "+"@ + names[2]
    }
}

impl HeldModifiers {
    /// Some modifier is held.
    pub fn any(self) -> (b: bool)
        ensures
            b == (self.control || self.shift || self.alt),
    {
        self.control || self.shift || self.alt
    }

    /// The held keys for display, such as `Ctrl+Shift`, or `none`.
    pub fn to_string(&self) -> (s: String)
        ensures
            s@ == held_names(*self),
    {
        let mut out: Vec<char> = Vec::new();
        let mut count: usize = 0;
        if self.control {
            push_str_chars(&mut out, "Ctrl");
            count = count + 1;
        }
        if self.shift {
            if count > 0 {
                push_str_chars(&mut out, "+");
            }
            push_str_chars(&mut out, "Shift");
            count = count + 1;
        }
        if self.alt {
            if count > 0 {
                push_str_chars(&mut out, "+");
            }
            push_str_chars(&mut out, "Alt");
            count = count + 1;
        }
        if count == 0 {
            push_str_chars(&mut out, "none");
        }
        proof {
            let c = if self.control { seq!["Ctrl"@] } else { Seq::<Seq<char>>::empty() };
            let s = if self.shift { seq!["Shift"@] } else { Seq::<Seq<char>>::empty() };
            let a = if self.alt { seq!["Alt"@] } else { Seq::<Seq<char>>::empty() };
            let names = c + s + a;
            if self.control && self.shift && self.alt {
                assert(names =~= seq!["Ctrl"@, "Shift"@, "Alt"@]);
            } else if self.control && self.shift {
                assert(names =~= seq!["Ctrl"@, "Shift"@]);
            } else if self.control && self.alt {
                assert(names =~= seq!["Ctrl"@, "Alt"@]);
            } else if self.shift && self.alt {
                assert(names =~= seq!["Shift"@, "Alt"@]);
            } else if self.control {
                assert(names =~= seq!["Ctrl"@]);
            } else if self.shift {
                assert(names =~= seq!["Shift"@]);
            } else if self.alt {
                assert(names =~= seq!["Alt"@]);
            } else {
                assert(names =~= Seq::<Seq<char>>::empty());
            }
            assert(out@ =~= held_names(*self));
        }
        string_of(out.as_slice())
    }
}

/// A window is a game client: its class names the client, or its title is
/// exactly one of the clients' titles. A browser tab whose title only starts
/// with the game's name is not.
pub open spec fn is_game_window(title: Seq<char>, class: Seq<char>) -> bool {
    contains(lower(class), "poewindowclass"@) || contains(lower(class), "pathofexile"@) || trim(
        title,
    ) == "Path of Exile"@ || trim(title) == "Path of Exile 2"@
}

/// A window whose class names the client, `POEWindowClass` or `PathOfExile`
/// in any letter case, is a game window whatever its title; a window titled
/// exactly `Path of Exile` or `Path of Exile 2`, white space around the title
/// aside, is one whatever its class; a window with neither is not.
pub proof fn game_windows_are_named_by_class_or_exact_title(title: Seq<char>, class: Seq<char>)
    ensures
        contains(lower(class), "poewindowclass"@) ==> is_game_window(title, class),
        contains(lower(class), "pathofexile"@) ==> is_game_window(title, class),
        trim(title) == "Path of Exile"@ ==> is_game_window(title, class),
        trim(title) == "Path of Exile 2"@ ==> is_game_window(title, class),
        !contains(lower(class), "poewindowclass"@) && !contains(lower(class), "pathofexile"@) && trim(title)
            != "Path of Exile"@ && trim(title) != "Path of Exile 2"@ ==> !is_game_window(title, class),
{
}

/// Pure predicate behind the foreground check.
pub fn describes_game(title: &str, class: &str) -> (b: bool)
    ensures
        b == is_game_window(title@, class@),
{
    let class_chars = chars_of(class);
    let lowered = lowercase_chars(class_chars.as_slice());
    let first = chars_of("poewindowclass");
    let second = chars_of("pathofexile");
    if has_infix(lowered.as_slice(), first.as_slice()) || has_infix(lowered.as_slice(), second.as_slice()) {
        return true;
    }
    let title_chars = chars_of(title);
    let t = trim_chars(title_chars.as_slice());
    let one = chars_of("Path of Exile");
    let two = chars_of("Path of Exile 2");
    crate::text::same_chars(t.as_slice(), one.as_slice()) || crate::text::same_chars(t.as_slice(), two.as_slice())
}

} // verus!
