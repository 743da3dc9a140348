//! Which glyphs this terminal can render.
//!
//! Resolved once from the environment and handed to every renderer, so that no
//! box-drawing character appears anywhere else. Guessing ASCII on an unknown
//! console renders everywhere; guessing Unicode wrong prints replacement boxes.

use vstd::prelude::*;
use crate::chars::{contains, lower, lowered, mentions, replace, replaced, same};
use crate::report::{opt_str, set_to, setting};

verus! {

#[derive(Debug, Clone, Copy, PartialEq, Eq, Structural)]
pub enum Charset {
    Unicode,
    Ascii,
}

/// The locale names UTF-8, however it is spelt.
pub open spec fn names_utf8(locale: Seq<char>) -> bool {
    contains(replaced(lower(locale), "-"@, ""@), "utf8"@)
}

/// The glyphs for an environment. On Windows a terminal type being set at all
/// means one that is UTF-8; elsewhere the locale decides.
pub open spec fn charset_for(term: Option<Seq<char>>, locale: Option<Seq<char>>, force_ascii: bool, windows: bool) -> Charset {
    if force_ascii || term is None || term == Some("dumb"@) || term == Some(""@) {
        Charset::Ascii
    } else if windows {
        Charset::Unicode
    } else if locale matches Some(l) && names_utf8(l) {
        Charset::Unicode
    } else {
        Charset::Ascii
    }
}

/// The charset for an environment that was read.
pub fn from_env(term: Option<&str>, locale: Option<&str>, force_ascii: bool, windows: bool) -> (r: Charset)
    ensures
        r == charset_for(opt_str(term), opt_str(locale), force_ascii, windows),
{
    if force_ascii {
        return Charset::Ascii;
    }
    match term {
        None => return Charset::Ascii,
        Some(t) => {
            if same(t, "dumb") || same(t, "") {
                return Charset::Ascii;
            }
        },
    }
    if windows {
        return Charset::Unicode;
    }
    match locale {
        Some(l) => {
            let low = lowered(l);
            proof {
                reveal_strlit("-");
            }
            let flat = replace(low.as_str(), "-", "");
            if mentions(flat.as_str(), "utf8") {
                Charset::Unicode
            } else {
                Charset::Ascii
            }
        },
        None => Charset::Ascii,
    }
}

/// What the environment says of the terminal and its locale.
pub struct Terminal {
    pub term: Option<String>,
    /// Windows Terminal sets no terminal type, but is UTF-8.
    pub windows_terminal: bool,
    pub lc_all: Option<String>,
    pub lc_ctype: Option<String>,
    pub lang: Option<String>,
    pub zc_ascii: Option<String>,
}

/// The terminal type, which Windows Terminal stands in for.
pub open spec fn term_of(t: Terminal) -> Option<Seq<char>> {
    match set_to(t.term) {
        Some(s) => Some(s),
        None => if t.windows_terminal {
            Some("wt"@)
        } else {
            None
        },
    }
}

/// The first locale variable that is set.
pub open spec fn locale_of(t: Terminal) -> Option<Seq<char>> {
    match set_to(t.lc_all) {
        Some(s) => Some(s),
        None => match set_to(t.lc_ctype) {
            Some(s) => Some(s),
            None => set_to(t.lang),
        },
    }
}

/// The charset of a terminal.
pub fn detect(t: &Terminal, windows: bool) -> (r: Charset)
    ensures
        r == charset_for(term_of(*t), locale_of(*t), t.zc_ascii matches Some(a) && a@ == "1"@, windows),
{
    let term = match setting(&t.term) {
        Some(s) => Some(s),
        None => if t.windows_terminal {
            Some("wt")
        } else {
            None
        },
    };
    let locale = match setting(&t.lc_all) {
        Some(s) => Some(s),
        None => match setting(&t.lc_ctype) {
            Some(s) => Some(s),
            None => setting(&t.lang),
        },
    };
    let force = match &t.zc_ascii {
        Some(a) => same(a.as_str(), "1"),
        None => false,
    };
    from_env(term, locale, force, windows)
}

impl Charset {
    pub open spec fn resident_text(self) -> Seq<char> {
        match self {
            Charset::Unicode => "●"@,
            Charset::Ascii => "*"@,
        }
    }

    pub open spec fn partial_text(self) -> Seq<char> {
        match self {
            Charset::Unicode => "◐"@,
            Charset::Ascii => "o"@,
        }
    }

    pub open spec fn wont_fit_text(self) -> Seq<char> {
        match self {
            Charset::Unicode => "○"@,
            Charset::Ascii => "."@,
        }
    }

    pub open spec fn rule_char(self) -> char {
        match self {
            Charset::Unicode => '─',
            Charset::Ascii => '-',
        }
    }

    pub open spec fn vrule_text(self) -> Seq<char> {
        match self {
            Charset::Unicode => "│"@,
            Charset::Ascii => "|"@,
        }
    }

    pub open spec fn sep_text(self) -> Seq<char> {
        match self {
            Charset::Unicode => "·"@,
            Charset::Ascii => "-"@,
        }
    }

    pub open spec fn spinner_text(self, tick: nat) -> Seq<char> {
        match self {
            Charset::Unicode => if tick % 10 == 0 {
                "⠋"@
            } else if tick % 10 == 1 {
                "⠙"@
            } else if tick % 10 == 2 {
                "⠹"@
            } else if tick % 10 == 3 {
                "⠸"@
            } else if tick % 10 == 4 {
                "⠼"@
            } else if tick % 10 == 5 {
                "⠴"@
            } else if tick % 10 == 6 {
                "⠦"@
            } else if tick % 10 == 7 {
                "⠧"@
            } else if tick % 10 == 8 {
                "⠇"@
            } else {
                "⠏"@
            },
            Charset::Ascii => if tick % 4 == 0 {
                "-"@
            } else if tick % 4 == 1 {
                "\\"@
            } else if tick % 4 == 2 {
                "|"@
            } else {
                "/"@
            },
        }
    }

    /// Every model byte is in RAM.
    pub fn resident(&self) -> (r: &'static str)
        ensures
            r@ == self.resident_text(),
    {
        match self {
            Charset::Unicode => "●",
            Charset::Ascii => "*",
        }
    }

    /// Some of the weights stream from disk on every token.
    pub fn partial(&self) -> (r: &'static str)
        ensures
            r@ == self.partial_text(),
    {
        match self {
            Charset::Unicode => "◐",
            Charset::Ascii => "o",
        }
    }

    pub fn wont_fit(&self) -> (r: &'static str)
        ensures
            r@ == self.wont_fit_text(),
    {
        match self {
            Charset::Unicode => "○",
            Charset::Ascii => ".",
        }
    }

    pub fn rule(&self) -> (r: &'static str)
        ensures
            r@ == seq![self.rule_char()],
    {
        proof {
            reveal_strlit("─");
            reveal_strlit("-");
            assert("─"@ =~= seq!['─']);
            assert("-"@ =~= seq!['-']);
        }
        match self {
            Charset::Unicode => "─",
            Charset::Ascii => "-",
        }
    }

    /// A horizontal rule of `w` columns.
    pub fn rule_line(&self, w: usize) -> (r: String)
        ensures
            r@ == crate::chars::repeated(self.rule_char(), w as nat),
    {
        match self {
            Charset::Unicode => crate::chars::repeat('─', w),
            Charset::Ascii => crate::chars::repeat('-', w),
        }
    }

    pub fn vrule(&self) -> (r: &'static str)
        ensures
            r@ == self.vrule_text(),
    {
        match self {
            Charset::Unicode => "│",
            Charset::Ascii => "|",
        }
    }

    pub fn sep(&self) -> (r: &'static str)
        ensures
            r@ == self.sep_text(),
    {
        match self {
            Charset::Unicode => "·",
            Charset::Ascii => "-",
        }
    }

    /// Frame `tick` of the spinner. Wraps, so a caller may increment forever.
    pub fn spinner(&self, tick: usize) -> (r: &'static str)
        ensures
            r@ == self.spinner_text(tick as nat),
    {
        match self {
            Charset::Unicode => {
                let k: usize = tick % 10;
                if k == 0 {
                    "⠋"
                } else if k == 1 {
                    "⠙"
                } else if k == 2 {
                    "⠹"
                } else if k == 3 {
                    "⠸"
                } else if k == 4 {
                    "⠼"
                } else if k == 5 {
                    "⠴"
                } else if k == 6 {
                    "⠦"
                } else if k == 7 {
                    "⠧"
                } else if k == 8 {
                    "⠇"
                } else {
                    "⠏"
                }
            },
            Charset::Ascii => {
                let k: usize = tick % 4;
                if k == 0 {
                    "-"
                } else if k == 1 {
                    "\\"
                } else if k == 2 {
                    "|"
                } else {
                    "/"
                }
            },
        }
    }
}

/// Every glyph is one column wide in both sets, so a layout made for one holds
/// for the other.
pub proof fn glyphs_are_one_column(c: Charset, tick: nat)
    ensures
        c.resident_text().len() == 1,
        c.partial_text().len() == 1,
        c.wont_fit_text().len() == 1,
        c.vrule_text().len() == 1,
        c.sep_text().len() == 1,
        c.spinner_text(tick).len() == 1,
{
    reveal_strlit("●");
    reveal_strlit("*");
    reveal_strlit("◐");
    reveal_strlit("o");
    reveal_strlit("○");
    reveal_strlit(".");
    reveal_strlit("│");
    reveal_strlit("|");
    reveal_strlit("·");
    reveal_strlit("-");
    reveal_strlit("⠋");
    reveal_strlit("⠙");
    reveal_strlit("⠹");
    reveal_strlit("⠸");
    reveal_strlit("⠼");
    reveal_strlit("⠴");
    reveal_strlit("⠦");
    reveal_strlit("⠧");
    reveal_strlit("⠇");
    reveal_strlit("⠏");
    reveal_strlit("\\");
    reveal_strlit("/");
}

/// The ASCII set is ASCII throughout.
pub proof fn ascii_glyphs_are_ascii(tick: nat)
    ensures
        Charset::Ascii.resident_text()[0] <= '\u{7f}',
        Charset::Ascii.partial_text()[0] <= '\u{7f}',
        Charset::Ascii.wont_fit_text()[0] <= '\u{7f}',
        Charset::Ascii.rule_char() <= '\u{7f}',
        Charset::Ascii.vrule_text()[0] <= '\u{7f}',
        Charset::Ascii.sep_text()[0] <= '\u{7f}',
        Charset::Ascii.spinner_text(tick)[0] <= '\u{7f}',
{
    reveal_strlit("*");
    reveal_strlit("o");
    reveal_strlit(".");
    reveal_strlit("|");
    reveal_strlit("-");
    reveal_strlit("\\");
    reveal_strlit("/");
}

/// The spinner goes round: as many frames on, it shows the same glyph.
pub proof fn the_spinner_wraps(c: Charset, tick: nat)
    ensures
        c.spinner_text(tick + 20) == c.spinner_text(tick),
{
    assert((tick + 20) % 10 == tick % 10);
    assert((tick + 20) % 4 == tick % 4);
}

} // verus!
