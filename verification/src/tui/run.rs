//! What a key press means, and which rows are on screen.

use vstd::prelude::*;
use crate::chars::{contains, lower, lowered, mentions};
use crate::report::{all_positions, best_of, best_per_model_indices, is_ranked, positions, sort_rows, valid_positions, Row};
use crate::tui::frame;
use crate::tui::frame::{list_rows, shown_height};
use crate::tui::state::{on_key, Action, Key, State, StateView};

verus! {

/// A key as the terminal names it.
#[derive(Debug, Clone, Copy, PartialEq, Eq, Structural)]
pub enum KeyCode {
    Up,
    Down,
    PageUp,
    PageDown,
    Home,
    End,
    Enter,
    Esc,
    Backspace,
    Char(char),
    /// Any other key.
    Other,
}

/// A key event.
#[derive(Debug, Clone, Copy, PartialEq, Eq, Structural)]
pub struct KeyPress {
    pub code: KeyCode,
    pub control: bool,
    /// The key was let go rather than pressed.
    pub release: bool,
}

/// What a key event means.
pub open spec fn meaning(e: KeyPress) -> Option<Key> {
    if e.release {
        None
    } else if e.control && e.code == KeyCode::Char('c') {
        Some(Key::Quit)
    } else {
        match e.code {
            KeyCode::Up => Some(Key::Up),
            KeyCode::Down => Some(Key::Down),
            KeyCode::PageUp => Some(Key::PageUp),
            KeyCode::PageDown => Some(Key::PageDown),
            KeyCode::Home => Some(Key::Home),
            KeyCode::End => Some(Key::End),
            KeyCode::Enter => Some(Key::Enter),
            KeyCode::Esc => Some(Key::Esc),
            KeyCode::Backspace => Some(Key::Backspace),
            KeyCode::Char(c) => if c == '/' {
                Some(Key::Slash)
            } else {
                Some(Key::Char(c))
            },
            KeyCode::Other => None,
        }
    }
}

/// The key of an event. Windows reports releases as well as presses; acting on
/// both would move the cursor two rows per keystroke.
pub fn to_key(e: KeyPress) -> (r: Option<Key>)
    ensures
        r == meaning(e),
{
    if e.release {
        return None;
    }
    if e.control && e.code == KeyCode::Char('c') {
        return Some(Key::Quit);
    }
    match e.code {
        KeyCode::Up => Some(Key::Up),
        KeyCode::Down => Some(Key::Down),
        KeyCode::PageUp => Some(Key::PageUp),
        KeyCode::PageDown => Some(Key::PageDown),
        KeyCode::Home => Some(Key::Home),
        KeyCode::End => Some(Key::End),
        KeyCode::Enter => Some(Key::Enter),
        KeyCode::Esc => Some(Key::Esc),
        KeyCode::Backspace => Some(Key::Backspace),
        KeyCode::Char(c) => if c == '/' {
            Some(Key::Slash)
        } else {
            Some(Key::Char(c))
        },
        KeyCode::Other => None,
    }
}

pub open spec fn vim_meaning(k: Key, filtering: bool) -> Key {
    if filtering {
        k
    } else {
        match k {
            Key::Char(c) => if c == 'j' {
                Key::Down
            } else if c == 'k' {
                Key::Up
            } else if c == 'g' {
                Key::Home
            } else if c == 'G' {
                Key::End
            } else {
                k
            },
            _ => k,
        }
    }
}

/// Vim keys, but only outside the filter: inside it they are text.
pub fn vim_key(k: Key, filtering: bool) -> (r: Key)
    ensures
        r == vim_meaning(k, filtering),
{
    if filtering {
        return k;
    }
    match k {
        Key::Char(c) => if c == 'j' {
            Key::Down
        } else if c == 'k' {
            Key::Up
        } else if c == 'g' {
            Key::Home
        } else if c == 'G' {
            Key::End
        } else {
            k
        },
        _ => k,
    }
}

/// The positions of the rows whose model's name holds the filter, whatever the
/// case of either.
pub open spec fn matching(rows: Seq<Row>, idx: Seq<usize>, filter: Seq<char>) -> Seq<usize>
    decreases idx.len(),
{
    if idx.len() == 0 {
        idx
    } else {
        let rest = matching(rows, idx.drop_last(), filter);
        if contains(lower(rows[idx.last() as int].model_id@), lower(filter)) {
            rest.push(idx.last())
        } else {
            rest
        }
    }
}

/// The rows of the current view before the filter: one per model, or all.
pub open spec fn base_rows(rows: Seq<Row>, show_all: bool) -> Seq<usize> {
    if show_all {
        all_positions(rows.len())
    } else {
        best_of(rows, all_positions(rows.len()))
    }
}

pub open spec fn filtered_rows(rows: Seq<Row>, s: State) -> Seq<usize> {
    let base = base_rows(rows, s.show_all);
    if s.filter@.len() == 0 {
        base
    } else {
        matching(rows, base, s.filter@)
    }
}

fn keep_matching(rows: &Vec<Row>, idx: &Vec<usize>, filter: &str) -> (r: Vec<usize>)
    requires
        valid_positions(idx@, rows@.len()),
    ensures
        r@ == matching(rows@, idx@, filter@),
        valid_positions(r@, rows@.len()),
{
    let needle = lowered(filter);
    let mut out: Vec<usize> = Vec::new();
    let mut i: usize = 0;
    assert(idx@.subrange(0, 0) =~= out@);
    while i < idx.len()
        invariant
            i <= idx@.len(),
            needle@ == lower(filter@),
            valid_positions(idx@, rows@.len()),
            out@ == matching(rows@, idx@.subrange(0, i as int), filter@),
            valid_positions(out@, rows@.len()),
        decreases idx@.len() - i,
    {
        assert(idx@.subrange(0, i + 1).drop_last() =~= idx@.subrange(0, i as int));
        assert(idx@.subrange(0, i + 1).last() == idx@[i as int]);
        let k: usize = idx[i];
        assert(k < rows@.len());
        let name = lowered(rows[k].model_id.as_str());
        if mentions(name.as_str(), needle.as_str()) {
            out.push(k);
        }
        i += 1;
    }
    assert(idx@.subrange(0, i as int) =~= idx@);
    out
}

/// The rows to show, in order, and how many the current view holds before the
/// filter, which is the footer's denominator.
///
/// Recomputed on every keystroke rather than cached: there are at most a few
/// hundred rows.
pub fn visible_rows(rows: &Vec<Row>, s: &State) -> (r: (Vec<usize>, usize))
    ensures
        is_ranked(r.0@, rows@, filtered_rows(rows@, *s), s.sort),
        valid_positions(r.0@, rows@.len()),
        r.1 as nat == base_rows(rows@, s.show_all).len(),
{
    let all = positions(rows.len());
    let base = if s.show_all {
        all
    } else {
        best_per_model_indices(rows, &all)
    };
    let unfiltered: usize = base.len();
    let kept = if s.filter.as_str().unicode_len() == 0 {
        base
    } else {
        keep_matching(rows, &base, s.filter.as_str())
    };
    (sort_rows(rows, &kept, s.sort), unfiltered)
}

/// Ready the state for a window of `h` lines: the rows to show, a cursor that
/// is on one of them, and a list that shows the cursor in the lines that the
/// pane and the overlay leave it.
pub fn prepare(rows: &Vec<Row>, v: &frame::View, s: &mut State, h: usize) -> (r: (Vec<usize>, usize))
    requires
        v.rows@.len() == rows@.len(),
    ensures
        is_ranked(r.0@, rows@, filtered_rows(rows@, *old(s)), old(s).sort),
        valid_positions(r.0@, rows@.len()),
        r.1 as nat == base_rows(rows@, old(s).show_all).len(),
        final(s)@ == prepared(*v, r.0@, old(s)@, h as nat),
{
    let visible = visible_rows(rows, s);
    s.set_len(visible.0.len());
    let height: usize = list_rows(v, &visible.0, s, h);
    s.scroll_into_view(height);
    visible
}

/// The state before a frame of these rows is painted.
pub open spec fn prepared(v: frame::View, idx: Seq<usize>, s: StateView, h: nat) -> StateView {
    let t = s.with_len(idx.len() as int);
    t.scrolled(shown_height(v, idx, t, h) as int)
}

/// What a key event does, by the keys it may stand for.
pub fn press(s: &mut State, e: KeyPress) -> (r: Action)
    ensures
        match meaning(e) {
            Some(k) => {
                let key = vim_meaning(k, old(s).filtering);
                &&& final(s)@ == old(s)@.after_key(key)
                &&& r == Action::Quit <==> old(s)@.leaves(key)
            },
            None => final(s)@ == old(s)@ && r == Action::Redraw,
        },
{
    match to_key(e) {
        Some(k) => {
            let key = vim_key(k, s.filtering);
            on_key(s, key)
        },
        None => Action::Redraw,
    }
}

} // verus!
