//! What a key press does, and which rows a filter leaves.

use vstd::prelude::*;
use crate::chars::{contains, lower};
use crate::report::{all_positions, Row};
use crate::tui::run::{base_rows, filtered_rows, matching, meaning, vim_meaning, KeyCode, KeyPress};
use crate::tui::state::{Key, State, StateView};

verus! {

/// Nothing overlays the rows and nothing is being typed.
pub open spec fn is_browsing(s: StateView) -> bool {
    !s.help && !s.filtering && s.cursor_in_range() && s.len > 0 && s.page >= 0
}

/// Nothing but the cursor differs.
pub open spec fn only_the_cursor(a: StateView, b: StateView) -> bool {
    a == (StateView { cursor: a.cursor, ..b })
}

/// An arrow moves the cursor by one row and a page key by a page, as far as
/// there are rows; home goes to the first row and end to the last. Nothing else
/// changes.
pub proof fn keys_move_the_cursor_by_rows(s: StateView)
    requires
        is_browsing(s),
    ensures
        s.cursor + 1 < s.len ==> s.after_key(Key::Down).cursor == s.cursor + 1,
        s.cursor + 1 == s.len ==> s.after_key(Key::Down).cursor == s.cursor,
        s.cursor > 0 ==> s.after_key(Key::Up).cursor == s.cursor - 1,
        s.cursor == 0 ==> s.after_key(Key::Up).cursor == 0,
        s.cursor + s.page < s.len ==> s.after_key(Key::PageDown).cursor == s.cursor + s.page,
        s.cursor + s.page >= s.len ==> s.after_key(Key::PageDown).cursor == s.len - 1,
        s.cursor >= s.page ==> s.after_key(Key::PageUp).cursor == s.cursor - s.page,
        s.cursor < s.page ==> s.after_key(Key::PageUp).cursor == 0,
        s.after_key(Key::Home).cursor == 0,
        s.after_key(Key::End).cursor == s.len - 1,
        only_the_cursor(s.after_key(Key::Down), s) && only_the_cursor(s.after_key(Key::Up), s),
        only_the_cursor(s.after_key(Key::PageDown), s) && only_the_cursor(s.after_key(Key::PageUp), s),
        only_the_cursor(s.after_key(Key::Home), s) && only_the_cursor(s.after_key(Key::End), s),
{
}

/// Down and up again is where it was, wherever there is a row below.
pub proof fn up_undoes_down(s: StateView)
    requires
        is_browsing(s),
        s.cursor + 1 < s.len,
    ensures
        s.after_key(Key::Down).after_key(Key::Up) == s,
{
}

/// The filter is opened by a slash, kept by enter and given up by escape, which
/// leaves the browser only where there is no filter left.
pub proof fn escape_gives_the_filter_up_first(s: StateView)
    requires
        is_browsing(s),
    ensures
        s.after_key(Key::Slash) == (StateView { filtering: true, ..s }),
        s.after_key(Key::Slash).after_key(Key::Enter) == s,
        s.after_key(Key::Slash).after_key(Key::Esc) == (StateView { filter: Seq::empty(), ..s }),
        s.after_key(Key::Esc) == (StateView { filter: Seq::empty(), ..s }),
        s.leaves(Key::Esc) <==> s.filter.len() == 0,
        s.leaves(Key::Char('q')),
        !s.after_key(Key::Slash).leaves(Key::Esc),
{
}

/// While help is shown no key does anything but put it away.
pub proof fn help_swallows_every_key(s: StateView, k: Key)
    requires
        s.help,
    ensures
        s.after_key(k) == s || s.after_key(k) == (StateView { help: false, ..s }),
        s.leaves(k) <==> k == Key::Quit,
        s.after_key(Key::Esc) == (StateView { help: false, ..s }),
{
}

/// A key that is let go means nothing, and control with c leaves; outside the
/// filter four letters move as the arrows do, and inside it they are letters.
pub proof fn letters_move_only_outside_the_filter(e: KeyPress, k: Key)
    ensures
        e.release ==> meaning(e) is None,
        !e.release && e.control && e.code == KeyCode::Char('c') ==> meaning(e) == Some(Key::Quit),
        !e.release && !e.control && e.code == KeyCode::Down ==> meaning(e) == Some(Key::Down),
        !e.release && !e.control && e.code == KeyCode::Up ==> meaning(e) == Some(Key::Up),
        vim_meaning(k, true) == k,
        vim_meaning(Key::Char('j'), false) == Key::Down,
        vim_meaning(Key::Char('k'), false) == Key::Up,
        vim_meaning(Key::Char('g'), false) == Key::Home,
        vim_meaning(Key::Char('G'), false) == Key::End,
{
}

/// The name of the row's model holds the filter, whatever the case of either.
pub open spec fn passes(row: Row, filter: Seq<char>) -> bool {
    contains(lower(row.model_id@), lower(filter))
}

/// A filter leaves exactly the rows whose model's name holds it, in the order
/// they came.
pub proof fn a_filter_leaves_what_holds_it(rows: Seq<Row>, idx: Seq<usize>, filter: Seq<char>)
    ensures
        forall|x: usize| #[trigger] matching(rows, idx, filter).contains(x) <==> idx.contains(x) && passes(rows[x as int], filter),
        matching(rows, idx, filter).len() <= idx.len(),
        (forall|i: int| 0 <= i < idx.len() ==> passes(rows[#[trigger] idx[i] as int], filter)) ==> matching(rows, idx, filter) == idx,
    decreases idx.len(),
{
    if idx.len() > 0 {
        let r = idx.drop_last();
        let (a, b) = (matching(rows, r, filter), matching(rows, idx, filter));
        a_filter_leaves_what_holds_it(rows, r, filter);
        assert forall|x: usize| #[trigger] b.contains(x) <==> idx.contains(x) && passes(rows[x as int], filter) by {
            if a.contains(x) {
                let k = choose|k: int| 0 <= k < a.len() && a[k] == x;
                assert(b[k] == x);
            }
            if r.contains(x) {
                let k = choose|k: int| 0 <= k < r.len() && r[k] == x;
                assert(idx[k] == x);
            }
            if b.contains(x) && !a.contains(x) {
                let k = choose|k: int| 0 <= k < b.len() && b[k] == x;
                if k < a.len() {
                    assert(a[k] == x);
                }
                assert(idx[idx.len() - 1] == x);
            }
            if idx.contains(x) && !r.contains(x) {
                let k = choose|k: int| 0 <= k < idx.len() && idx[k] == x;
                if k < r.len() {
                    assert(r[k] == x);
                }
                if passes(rows[x as int], filter) {
                    assert(b[a.len() as int] == x);
                }
            }
        }
        if forall|i: int| 0 <= i < idx.len() ==> passes(rows[#[trigger] idx[i] as int], filter) {
            assert forall|i: int| 0 <= i < r.len() implies passes(rows[#[trigger] r[i] as int], filter) by {
                assert(passes(rows[idx[i] as int], filter));
            }
            assert(passes(rows[idx[idx.len() - 1] as int], filter));
            assert(r.push(idx.last()) =~= idx);
        }
    }
}

/// Every row is there where all are asked for and nothing is filtered.
pub proof fn all_rows_are_there_unless_filtered(rows: Seq<Row>, s: State)
    requires
        s.show_all,
        rows.len() <= usize::MAX,
    ensures
        s.filter@.len() == 0 ==> filtered_rows(rows, s).len() == rows.len() && forall|k: int|
            0 <= k < rows.len() ==> (#[trigger] filtered_rows(rows, s)[k]) == k,
        forall|k: usize| k < rows.len() && s.filter@.len() > 0 ==> (#[trigger] filtered_rows(rows, s).contains(k) <==> passes(
            rows[k as int],
            s.filter@,
        )),
{
    let base = base_rows(rows, true);
    a_filter_leaves_what_holds_it(rows, base, s.filter@);
    assert forall|k: usize| k < rows.len() implies #[trigger] base.contains(k) by {
        assert(all_positions(rows.len())[k as int] == k);
    }
    assert forall|k: usize| k < rows.len() && s.filter@.len() > 0 implies (#[trigger] filtered_rows(rows, s).contains(k) <==> passes(
        rows[k as int],
        s.filter@,
    )) by {
        assert(base.contains(k));
    }
}

} // verus!
