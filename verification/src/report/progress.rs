//! What the user watches while the benchmark runs.
//!
//! The terminal is never silent while work is happening, and nothing is
//! written where nobody is watching: a spinner frame in a log is noise.

use vstd::prelude::*;
use crate::chars::{copy, left, pad_right};
use crate::report::charset::Charset;

verus! {

/// The line that shows what is being measured. Every method gives the text to
/// write next.
pub struct Progress {
    pub cs: Charset,
    pub live: bool,
    pub frame: usize,
    pub label: String,
}

/// Back to the start of the line, clear it, and the label: never up a line, so
/// that a resize cannot corrupt a line that already finished.
pub open spec fn line_start(label: Seq<char>) -> Seq<char> {
    "\r\u{1b}[2K  "@ + left(label, 9) + " "@
}

/// The line with the spinner at a frame.
pub open spec fn spinning(p: Progress) -> Seq<char> {
    if p.live {
        line_start(p.label@) + p.cs.spinner_text(p.frame as nat)
    } else {
        Seq::empty()
    }
}

impl Progress {
    pub fn to_writer(cs: Charset, live: bool) -> (r: Progress)
        ensures
            r.cs == cs,
            r.live == live,
            r.frame == 0,
            r.label@ == Seq::<char>::empty(),
    {
        Progress { cs, live, frame: 0, label: String::new() }
    }

    /// Announce a measurement before starting it.
    pub fn start(&mut self, label: &str) -> (r: String)
        ensures
            final(self).cs == old(self).cs,
            final(self).live == old(self).live,
            old(self).live ==> final(self).label@ == label@ && final(self).frame == 0,
            !old(self).live ==> *final(self) == *old(self),
            r@ == spinning(*final(self)),
    {
        if self.live {
            self.label = copy(label);
            self.frame = 0;
        }
        self.paint()
    }

    pub fn tick(&mut self) -> (r: String)
        ensures
            final(self).cs == old(self).cs,
            final(self).live == old(self).live,
            final(self).label@ == old(self).label@,
            final(self).frame == (if !old(self).live {
                old(self).frame as int
            } else if old(self).frame == usize::MAX {
                0
            } else {
                old(self).frame + 1
            }),
            r@ == spinning(*final(self)),
    {
        if self.live {
            self.frame = if self.frame == usize::MAX { 0 } else { self.frame + 1 };
        }
        self.paint()
    }

    /// Rewrite the line with the measured value and end it.
    pub fn done(&self, result: &str) -> (r: String)
        ensures
            r@ == (if self.live {
                line_start(self.label@) + result@ + "\n"@
            } else {
                Seq::empty()
            }),
    {
        if !self.live {
            return String::new();
        }
        let mut o = copy("\r\u{1b}[2K  ");
        o.append(pad_right(self.label.as_str(), 9).as_str());
        o.append(" ");
        o.append(result);
        o.append("\n");
        o
    }

    fn paint(&self) -> (r: String)
        ensures
            r@ == spinning(*self),
    {
        if !self.live {
            return String::new();
        }
        let mut o = copy("\r\u{1b}[2K  ");
        o.append(pad_right(self.label.as_str(), 9).as_str());
        o.append(" ");
        o.append(self.cs.spinner(self.frame));
        o
    }
}

/// Where nobody is watching, nothing is ever written.
pub proof fn a_dead_line_is_silent(p: Progress)
    requires
        !p.live,
    ensures
        spinning(p) == Seq::<char>::empty(),
{
}

} // verus!
