//! What is being shown, and what a keystroke does to it.

use vstd::prelude::*;
use crate::chars::{chars_of, string_of};
use crate::report::SortKey;

verus! {

#[derive(Debug, Clone, Copy, PartialEq, Eq, Structural)]
pub enum Key {
    Up,
    Down,
    PageUp,
    PageDown,
    Home,
    End,
    Enter,
    Slash,
    Esc,
    Backspace,
    /// Ctrl-C, which quits from anywhere including inside the filter.
    Quit,
    Char(char),
}

#[derive(Debug, Clone, Copy, PartialEq, Eq, Structural)]
pub enum Action {
    Redraw,
    Quit,
}

pub struct State {
    pub cursor: usize,
    /// Index of the first row on screen.
    pub top: usize,
    pub len: usize,
    pub filter: String,
    pub filtering: bool,
    pub sort: SortKey,
    pub show_all: bool,
    pub detail: bool,
    pub help: bool,
    /// Body height in rows, set by the last frame. Page moves need it.
    pub page: usize,
}

/// What a [`State`] holds.
pub struct StateView {
    pub cursor: int,
    pub top: int,
    pub len: int,
    pub filter: Seq<char>,
    pub filtering: bool,
    pub sort: SortKey,
    pub show_all: bool,
    pub detail: bool,
    pub help: bool,
    pub page: int,
}

impl View for State {
    type V = StateView;

    open spec fn view(&self) -> StateView {
        StateView {
            cursor: self.cursor as int,
            top: self.top as int,
            len: self.len as int,
            filter: self.filter@,
            filtering: self.filtering,
            sort: self.sort,
            show_all: self.show_all,
            detail: self.detail,
            help: self.help,
            page: self.page as int,
        }
    }
}

impl StateView {
    /// The cursor is on a row, or at the start where there is none.
    pub open spec fn cursor_in_range(self) -> bool {
        if self.len == 0 {
            self.cursor == 0
        } else {
            0 <= self.cursor < self.len
        }
    }

    /// The cursor `delta` rows on, kept on the rows there are.
    pub open spec fn moved(self, delta: int) -> StateView {
        let to = self.cursor + delta;
        StateView {
            cursor: if self.len == 0 || to < 0 {
                0
            } else if to >= self.len {
                self.len - 1
            } else {
                to
            },
            ..self
        }
    }

    /// There are `len` rows now: the cursor is pulled back among them, and the
    /// screen to the cursor.
    pub open spec fn with_len(self, len: int) -> StateView {
        let last = if len > 0 { len - 1 } else { 0 };
        let cursor = if self.cursor <= last { self.cursor } else { last };
        StateView { len, cursor, top: if self.top <= cursor { self.top } else { cursor }, ..self }
    }

    /// The screen moved as little as shows the cursor.
    pub open spec fn scrolled(self, height: int) -> StateView {
        StateView {
            page: if height >= 1 { height } else { 1 },
            top: if self.cursor < self.top {
                self.cursor
            } else if height > 0 && self.cursor >= self.top + height {
                self.cursor + 1 - height
            } else {
                self.top
            },
            ..self
        }
    }

    /// A key inside the filter: printable keys are text there.
    pub open spec fn filter_key(self, k: Key) -> StateView {
        match k {
            Key::Char(c) => StateView { filter: self.filter.push(c), ..self },
            Key::Backspace => StateView {
                filter: if self.filter.len() > 0 {
                    self.filter.drop_last()
                } else {
                    self.filter
                },
                ..self
            },
            Key::Esc => StateView { filtering: false, filter: Seq::empty(), ..self },
            Key::Enter => StateView { filtering: false, ..self },
            Key::Up => self.moved(-1),
            Key::Down => self.moved(1),
            _ => self,
        }
    }

    /// A key while browsing.
    pub open spec fn browse_key(self, k: Key) -> StateView {
        match k {
            Key::Up => self.moved(-1),
            Key::Down => self.moved(1),
            Key::PageUp => self.moved(-self.page),
            Key::PageDown => self.moved(self.page),
            Key::Home => StateView { cursor: 0, ..self },
            Key::End => StateView { cursor: if self.len > 0 { self.len - 1 } else { 0 }, ..self },
            Key::Enter => StateView { detail: !self.detail, ..self },
            Key::Slash => StateView { filtering: true, ..self },
            Key::Esc => StateView { filter: Seq::empty(), ..self },
            Key::Char(c) => if c == 's' {
                StateView { sort: self.sort.after(), ..self }
            } else if c == 'a' {
                StateView { show_all: !self.show_all, ..self }
            } else if c == '?' {
                StateView { help: true, ..self }
            } else {
                self
            },
            _ => self,
        }
    }

    /// What a key does. The help overlay swallows everything but the keys that
    /// dismiss it.
    pub open spec fn after_key(self, k: Key) -> StateView {
        if k == Key::Quit {
            self
        } else if self.help {
            StateView {
                help: !(k == Key::Esc || k == Key::Enter || k == Key::Char('?') || k == Key::Char('q')),
                ..self
            }
        } else if self.filtering {
            self.filter_key(k)
        } else {
            self.browse_key(k)
        }
    }

    /// A key that leaves: Ctrl-C from anywhere; q, and esc with nothing left
    /// to dismiss, while browsing.
    pub open spec fn leaves(self, k: Key) -> bool {
        k == Key::Quit || (!self.help && !self.filtering && (k == Key::Char('q') || (k == Key::Esc && self.filter.len()
            == 0)))
    }
}

impl State {
    pub fn new(len: usize) -> (r: State)
        ensures
            r@ == (StateView {
                cursor: 0,
                top: 0,
                len: len as int,
                filter: Seq::empty(),
                filtering: false,
                sort: SortKey::Verdict,
                show_all: false,
                detail: false,
                help: false,
                page: 10,
            }),
    {
        State {
            cursor: 0,
            top: 0,
            len,
            filter: String::new(),
            filtering: false,
            sort: SortKey::Verdict,
            show_all: false,
            detail: false,
            help: false,
            page: 10,
        }
    }

    /// Tell the state the row set changed size: after a filter keystroke or a
    /// toggle. Pulls the cursor back into range.
    pub fn set_len(&mut self, len: usize)
        ensures
            final(self)@ == old(self)@.with_len(len as int),
    {
        let last: usize = if len > 0 { len - 1 } else { 0 };
        self.len = len;
        if self.cursor > last {
            self.cursor = last;
        }
        if self.top > self.cursor {
            self.top = self.cursor;
        }
    }

    fn move_up(&mut self, n: usize)
        ensures
            final(self)@ == old(self)@.moved(-(n as int)),
    {
        if self.len == 0 || self.cursor < n {
            self.cursor = 0;
        } else if self.cursor - n >= self.len {
            self.cursor = self.len - 1;
        } else {
            self.cursor = self.cursor - n;
        }
    }

    fn move_down(&mut self, n: usize)
        ensures
            final(self)@ == old(self)@.moved(n as int),
    {
        if self.len == 0 {
            self.cursor = 0;
        } else if self.cursor >= self.len || n >= self.len - self.cursor {
            self.cursor = self.len - 1;
        } else {
            self.cursor = self.cursor + n;
        }
    }

    /// Scroll so the cursor is visible in a body `height` rows tall. Called
    /// before every frame, so a resize that shrinks the window under the
    /// cursor pulls the view back.
    pub fn scroll_into_view(&mut self, height: usize)
        ensures
            final(self)@ == old(self)@.scrolled(height as int),
    {
        self.page = if height >= 1 { height } else { 1 };
        if self.cursor < self.top {
            self.top = self.cursor;
        } else if height > 0 && self.cursor - self.top >= height {
            self.top = self.cursor - (height - 1);
        }
    }

    fn type_char(&mut self, c: char)
        ensures
            final(self)@ == (StateView { filter: old(self)@.filter.push(c), ..old(self)@ }),
    {
        self.filter.push(c);
    }

    fn erase_char(&mut self)
        ensures
            final(self)@ == (StateView {
                filter: if old(self)@.filter.len() > 0 {
                    old(self)@.filter.drop_last()
                } else {
                    old(self)@.filter
                },
                ..old(self)@
            }),
    {
        let v = chars_of(self.filter.as_str());
        if v.len() > 0 {
            let shorter = string_of(&v, 0, v.len() - 1);
            assert(shorter@ =~= old(self)@.filter.drop_last());
            self.filter = shorter;
        }
    }
}

fn key_in_filter(s: &mut State, k: Key)
    ensures
        final(s)@ == old(s)@.filter_key(k),
{
    match k {
        Key::Char(c) => s.type_char(c),
        Key::Backspace => s.erase_char(),
        Key::Esc => {
            s.filtering = false;
            s.filter = String::new();
        },
        Key::Enter => {
            s.filtering = false;
        },
        Key::Up => s.move_up(1),
        Key::Down => s.move_down(1),
        _ => {},
    }
}

fn key_while_browsing(s: &mut State, k: Key)
    ensures
        final(s)@ == old(s)@.browse_key(k),
{
    match k {
        Key::Up => s.move_up(1),
        Key::Down => s.move_down(1),
        Key::PageUp => {
            let n: usize = s.page;
            s.move_up(n)
        },
        Key::PageDown => {
            let n: usize = s.page;
            s.move_down(n)
        },
        Key::Home => {
            s.cursor = 0;
        },
        Key::End => {
            s.cursor = if s.len > 0 { s.len - 1 } else { 0 };
        },
        Key::Enter => {
            s.detail = !s.detail;
        },
        Key::Slash => {
            s.filtering = true;
        },
        Key::Esc => {
            s.filter = String::new();
        },
        Key::Char(c) => {
            if c == 's' {
                s.sort = s.sort.next();
            } else if c == 'a' {
                s.show_all = !s.show_all;
            } else if c == '?' {
                s.help = true;
            }
        },
        _ => {},
    }
}

/// What a key does to what is shown.
pub fn on_key(s: &mut State, k: Key) -> (r: Action)
    ensures
        r == Action::Quit <==> old(s)@.leaves(k),
        final(s)@ == old(s)@.after_key(k),
{
    // A user who cannot find the exit is the worst outcome a default-on screen
    // can produce.
    if k == Key::Quit {
        return Action::Quit;
    }
    if s.help {
        s.help = !(k == Key::Esc || k == Key::Enter || k == Key::Char('?') || k == Key::Char('q'));
        return Action::Redraw;
    }
    if s.filtering {
        key_in_filter(s, k);
        return Action::Redraw;
    }
    // Esc dismisses whatever is showing before it quits.
    let nothing_left = s.filter.as_str().unicode_len() == 0;
    let ghost before = s@;
    key_while_browsing(s, k);
    if k == Key::Char('q') || (k == Key::Esc && nothing_left) {
        assert(k == Key::Esc ==> before.filter =~= Seq::<char>::empty());
        Action::Quit
    } else {
        Action::Redraw
    }
}

// ---------------------------------------------------------------------- laws

/// Whatever is pressed, the cursor stays on a row.
pub proof fn no_key_loses_the_cursor(s: StateView, k: Key)
    requires
        s.cursor_in_range(),
        s.page >= 0,
        s.len >= 0,
    ensures
        s.after_key(k).cursor_in_range(),
{
}

/// However the row set changes, the cursor is on a row and the screen starts
/// no lower.
pub proof fn a_new_row_set_keeps_the_cursor(s: StateView, len: int)
    requires
        s.cursor >= 0,
        len >= 0,
    ensures
        s.with_len(len).cursor_in_range(),
        s.with_len(len).top <= s.with_len(len).cursor,
{
}

/// Whatever the window's height, the cursor is on the screen.
pub proof fn scrolling_shows_the_cursor(s: StateView, height: int)
    requires
        height > 0,
    ensures
        s.scrolled(height).top <= s.scrolled(height).cursor < s.scrolled(height).top + height,
        s.scrolled(height).cursor == s.cursor,
{
}

/// A second scroll of the same height moves nothing.
pub proof fn scrolling_settles(s: StateView, height: int)
    ensures
        s.scrolled(height).scrolled(height) == s.scrolled(height),
{
}

/// Ctrl-C leaves from every mode.
pub proof fn ctrl_c_always_leaves(s: StateView)
    ensures
        s.leaves(Key::Quit),
{
}

/// Inside the filter every character is text: it is typed, and nothing else
/// changes.
pub proof fn characters_are_text_inside_the_filter(s: StateView, c: char)
    requires
        s.filtering,
        !s.help,
    ensures
        s.after_key(Key::Char(c)) == (StateView { filter: s.filter.push(c), ..s }),
        !s.leaves(Key::Char(c)),
{
}

/// Backspace takes back what was typed.
pub proof fn backspace_undoes_typing(s: StateView, c: char)
    requires
        s.filtering,
        !s.help,
    ensures
        s.after_key(Key::Char(c)).after_key(Key::Backspace) == s,
{
    assert(s.filter.push(c).drop_last() =~= s.filter);
}

/// Enter twice, and the toggle of every quantisation twice, leave things as
/// they were.
pub proof fn toggles_undo_themselves(s: StateView)
    requires
        !s.filtering,
        !s.help,
    ensures
        s.after_key(Key::Enter).after_key(Key::Enter) == s,
        s.after_key(Key::Char('a')).after_key(Key::Char('a')) == s,
        s.after_key(Key::Char('s')).after_key(Key::Char('s')).after_key(Key::Char('s')) == s,
{
}

} // verus!
