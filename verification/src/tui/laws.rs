//! What holds of every frame.

use vstd::prelude::*;
use crate::chars::{dec, is_space, left, repeated, right, trim_end};
use crate::report::charset::{glyphs_are_one_column, Charset};
use crate::tui::frame;
use crate::tui::frame::{
    detail_bandwidth_text, detail_context_text, detail_eta_text, detail_spill_text, detail_texts, detail_title_text, detail_ttft_text,
    detail_weights_text, dot_of, fitted, footer_text, frame_lines, header_lines, help_texts, layout_of, list_lines, list_row,
    machine_line_text, measured_line_text, overlay_lines, pane_lines, resized, shown, shown_height, table_row, upper_lines, Cols,
    RowView, BOTTOM, MIN_H, MIN_W, TOP,
};
use crate::tui::run::prepared;
use crate::tui::state::StateView;

verus! {

// -------------------------------------------------------------------- the mark

/// The line carries the mark of the cursor.
pub open spec fn marked(l: Seq<char>) -> bool {
    l.len() > 0 && l[0] == '>'
}

proof fn lemma_trim_start(s: Seq<char>)
    ensures
        trim_end(s).len() <= s.len(),
        trim_end(s).len() > 0 ==> trim_end(s)[0] == s[0],
        s.len() > 0 && !is_space(s[0]) ==> trim_end(s).len() > 0,
    decreases s.len(),
{
    if s.len() > 0 && is_space(s.last()) {
        lemma_trim_start(s.drop_last());
    }
}

/// Fitting a line neither marks it nor takes its mark.
proof fn lemma_fitted_mark(line: Seq<char>, w: nat)
    requires
        w > 0,
    ensures
        marked(fitted(line, w)) == marked(line),
{
    lemma_trim_start(line);
    if line.len() > w {
        lemma_trim_start(line.subrange(0, w as int));
    }
}

spec fn unmarked(l: Seq<Seq<char>>) -> bool {
    forall|i: int| 0 <= i < l.len() ==> !marked(#[trigger] l[i])
}

proof fn lemma_rule_unmarked(cs: Charset, w: nat)
    requires
        w > 0,
    ensures
        !marked(fitted(repeated(cs.rule_char(), w), w)),
{
    lemma_fitted_mark(repeated(cs.rule_char(), w), w);
}

proof fn lemma_header_unmarked(v: frame::View, cs: Charset, w: nat, mw: nat, c: Cols)
    requires
        w > 0,
    ensures
        unmarked(header_lines(v, cs, w, mw, c)),
{
    reveal_strlit("  zc ");
    reveal_strlit("  ");
    reveal_strlit("    ");
    lemma_rule_unmarked(cs, w);
    assert(machine_line_text(v, cs)[0] == ' ');
    lemma_fitted_mark(machine_line_text(v, cs), w);
    assert(measured_line_text(v, cs)[0] == ' ');
    lemma_fitted_mark(measured_line_text(v, cs), w);
    let t = table_row("    "@, "MODEL"@, "QUANT"@, "decode t/s"@, "ctx"@, "TTFT"@, "conf"@, "%RAM"@, mw, c);
    assert(t[0] == ' ');
    lemma_fitted_mark(t, w);
}

proof fn lemma_detail_unmarked(v: frame::View, idx: Seq<usize>, s: StateView, cs: Charset, w: nat)
    requires
        w > 0,
    ensures
        unmarked(detail_texts(v, idx, s, cs, w)),
{
    if s.cursor < idx.len() {
        let r = v.rows@[idx[s.cursor] as int];
        reveal_strlit("  ");
        reveal_strlit("  weights    ");
        reveal_strlit("  spill      ");
        reveal_strlit("  bandwidth  ");
        reveal_strlit("  eta        ");
        reveal_strlit("  context    ");
        reveal_strlit("  TTFT       ");
        lemma_rule_unmarked(cs, w);
        assert(detail_title_text(v, r, cs)[0] == ' ');
        assert(detail_weights_text(v, r, cs)[0] == ' ');
        assert(detail_spill_text(v, r, cs)[0] == ' ');
        assert(detail_bandwidth_text(v, r, cs)[0] == ' ');
        assert(detail_eta_text(v, r, cs)[0] == ' ');
        assert(detail_context_text(v, r, cs)[0] == ' ');
        assert(detail_ttft_text(v, r, cs)[0] == ' ');
        lemma_fitted_mark(detail_title_text(v, r, cs), w);
        lemma_fitted_mark(detail_weights_text(v, r, cs), w);
        lemma_fitted_mark(detail_spill_text(v, r, cs), w);
        lemma_fitted_mark(detail_bandwidth_text(v, r, cs), w);
        lemma_fitted_mark(detail_eta_text(v, r, cs), w);
        lemma_fitted_mark(detail_context_text(v, r, cs), w);
        lemma_fitted_mark(detail_ttft_text(v, r, cs), w);
    }
}

proof fn lemma_help_unmarked(cs: Charset, w: nat)
    requires
        w > 0,
    ensures
        unmarked(help_texts(cs, w)),
{
    reveal_strlit("  up/down or j/k   move            enter   how the number was derived");
    reveal_strlit("  pgup/pgdn        move by a page  /       filter by name, esc clears");
    reveal_strlit("  home/end         first / last    s       sort: verdict, speed, ctx");
    reveal_strlit("  a                every quant     q       quit, printing the report");
    lemma_rule_unmarked(cs, w);
    lemma_fitted_mark("  up/down or j/k   move            enter   how the number was derived"@, w);
    lemma_fitted_mark("  pgup/pgdn        move by a page  /       filter by name, esc clears"@, w);
    lemma_fitted_mark("  home/end         first / last    s       sort: verdict, speed, ctx"@, w);
    lemma_fitted_mark("  a                every quant     q       quit, printing the report"@, w);
}

proof fn lemma_footer_unmarked(n: nat, total: nat, s: StateView, cs: Charset, w: nat)
    requires
        w > 0,
    ensures
        !marked(fitted(footer_text(n, total, s, cs), w)),
{
    reveal_strlit("  /");
    reveal_strlit("  ? or esc to close");
    reveal_strlit("  ");
    assert(footer_text(n, total, s, cs)[0] == ' ');
    lemma_fitted_mark(footer_text(n, total, s, cs), w);
}

/// A row of the list carries the mark where the cursor is on it.
proof fn lemma_row_mark(r: RowView, cs: Charset, on_cursor: bool, mw: nat, c: Cols, w: nat)
    requires
        w > 0,
    ensures
        marked(fitted(list_row(r, cs, on_cursor, mw, c), w)) == on_cursor,
{
    reveal_strlit(">");
    reveal_strlit(" ");
    let l = list_row(r, cs, on_cursor, mw, c);
    assert(l[0] == (if on_cursor { '>' } else { ' ' }));
    lemma_fitted_mark(l, w);
}

proof fn lemma_pane(v: frame::View, idx: Seq<usize>, s: StateView, cs: Charset, w: nat)
    ensures
        s.detail ==> detail_texts(v, idx, s, cs, w).len() == pane_lines(v, idx, s),
        s.help ==> help_texts(cs, w).len() == overlay_lines(s),
{
}

/// Among lines of which the second part alone can carry a mark, that part's
/// does.
proof fn lemma_mark_in(head: Seq<Seq<char>>, list: Seq<Seq<char>>, tail: Seq<Seq<char>>, k: int)
    requires
        unmarked(head),
        unmarked(tail),
        0 <= k < list.len(),
        forall|i: int| 0 <= i < list.len() ==> (marked(#[trigger] list[i]) <==> i == k),
    ensures
        forall|i: int| 0 <= i < (head + list + tail).len() ==> (marked(#[trigger] (head + list + tail)[i]) <==> i == head.len() + k),
{
    let all = head + list + tail;
    assert forall|i: int| 0 <= i < all.len() implies (marked(#[trigger] all[i]) <==> i == head.len() + k) by {
        if i < head.len() {
            assert(all[i] == head[i]);
        } else if i < head.len() + list.len() {
            assert(all[i] == list[i - head.len()]);
        } else {
            assert(all[i] == tail[i - head.len() - list.len()]);
        }
    }
}

proof fn lemma_unmarked_sum(a: Seq<Seq<char>>, b: Seq<Seq<char>>)
    requires
        unmarked(a),
        unmarked(b),
    ensures
        unmarked(a + b),
{
    assert forall|i: int| 0 <= i < (a + b).len() implies !marked(#[trigger] (a + b)[i]) by {
        if i < a.len() {
            assert((a + b)[i] == a[i]);
        } else {
            assert((a + b)[i] == b[i - a.len()]);
        }
    }
}

proof fn lemma_list_marks(v: frame::View, idx: Seq<usize>, s: StateView, cs: Charset, w: nat, height: nat, mw: nat, c: Cols)
    requires
        w > 0,
        0 <= s.top <= s.cursor < idx.len(),
        s.cursor < s.top + height,
    ensures
        ({
            let l = list_lines(v, idx, s, cs, w, height, mw, c);
            &&& s.cursor - s.top < l.len() <= height
            &&& forall|i: int| 0 <= i < l.len() ==> (marked(#[trigger] l[i]) <==> i == s.cursor - s.top)
        }),
{
    let l = list_lines(v, idx, s, cs, w, height, mw, c);
    assert(l.len() == shown(idx.len(), s.top, height));
    assert forall|i: int| 0 <= i < l.len() implies (marked(#[trigger] l[i]) <==> i == s.cursor - s.top) by {
        lemma_row_mark(v.rows@[idx[s.top + i] as int], cs, s.top + i == s.cursor, mw, c, w);
    }
}

proof fn lemma_upper_marks(v: frame::View, idx: Seq<usize>, s: StateView, cs: Charset, w: nat, h: nat)
    requires
        w > 0,
        0 <= s.top <= s.cursor < idx.len(),
        s.cursor < s.top + shown_height(v, idx, s, h),
    ensures
        ({
            let up = upper_lines(v, idx, s, cs, w, h);
            &&& TOP + s.cursor - s.top < up.len()
            &&& forall|i: int| 0 <= i < up.len() ==> (marked(#[trigger] up[i]) <==> i == TOP + s.cursor - s.top)
        }),
{
    let lay = layout_of(v.rows@, idx, w);
    let none = Seq::<Seq<char>>::empty();
    let detail = if s.detail { detail_texts(v, idx, s, cs, w) } else { none };
    let help = if s.help { help_texts(cs, w) } else { none };
    lemma_pane(v, idx, s, cs, w);
    let height = shown_height(v, idx, s, h);
    let head = header_lines(v, cs, w, lay.0, lay.1);
    let list = list_lines(v, idx, s, cs, w, height, lay.0, lay.1);
    lemma_header_unmarked(v, cs, w, lay.0, lay.1);
    lemma_detail_unmarked(v, idx, s, cs, w);
    lemma_help_unmarked(cs, w);
    lemma_unmarked_sum(detail, help);
    lemma_list_marks(v, idx, s, cs, w, height, lay.0, lay.1);
    lemma_mark_in(head, list, detail + help, s.cursor - s.top);
    assert(head.len() == 4);
    assert(upper_lines(v, idx, s, cs, w, h) == head + list + none + detail + help);
    assert(head + list + none + detail + help =~= head + list + (detail + help));
}

/// Lines of which one is marked, cut or filled to so many and with two more
/// behind them.
proof fn lemma_framed(all: Seq<Seq<char>>, up: Seq<Seq<char>>, n: nat, a: Seq<char>, b: Seq<char>, k: int)
    requires
        all == resized(up, n) + seq![a, b],
        0 <= k < n,
        forall|i: int| 0 <= i < up.len() ==> (marked(#[trigger] up[i]) <==> i == k),
        k < up.len(),
        !marked(a) && !marked(b),
    ensures
        forall|i: int| 0 <= i < all.len() ==> (marked(#[trigger] all[i]) <==> i == k),
{
    let (body, tail) = (resized(up, n), seq![a, b]);
    assert forall|i: int| 0 <= i < all.len() implies (marked(#[trigger] all[i]) <==> i == k) by {
        if i < n {
            assert(all[i] == body[i]);
            if i < up.len() {
                assert(body[i] == up[i]);
            }
        } else {
            assert(all[i] == tail[i - n]);
        }
    }
}

/// Where the list shows the cursor, exactly one line of the frame carries its
/// mark: that row's. The pane and the overlay may be open.
pub proof fn exactly_one_line_carries_the_mark(v: frame::View, idx: Seq<usize>, total: nat, s: StateView, cs: Charset, w: nat, h: nat)
    requires
        w >= MIN_W,
        h >= MIN_H,
        0 <= s.top <= s.cursor < idx.len(),
        s.cursor < s.top + shown_height(v, idx, s, h),
    ensures
        forall|i: int|
            0 <= i < frame_lines(v, idx, total, s, cs, w, h).len() ==> (marked(#[trigger] frame_lines(v, idx, total, s, cs, w, h)[i])
                <==> i == TOP + s.cursor - s.top),
{
    let up = upper_lines(v, idx, s, cs, w, h);
    lemma_upper_marks(v, idx, s, cs, w, h);
    lemma_footer_unmarked(idx.len(), total, s, cs, w);
    lemma_rule_unmarked(cs, w);
    lemma_framed(
        frame_lines(v, idx, total, s, cs, w, h),
        up,
        (h - BOTTOM) as nat,
        fitted(repeated(cs.rule_char(), w), w),
        fitted(footer_text(idx.len(), total, s, cs), w),
        TOP + s.cursor - s.top,
    );
}

/// Whatever was typed and however the window was resized: where the list has
/// room for a row at all, the frame shows the row under the cursor, and marks
/// it alone.
pub proof fn the_cursor_is_always_on_screen(v: frame::View, idx: Seq<usize>, total: nat, s: StateView, cs: Charset, w: nat, h: nat)
    requires
        w >= MIN_W,
        h >= MIN_H,
        0 <= s.cursor,
        0 <= s.top,
        idx.len() > 0,
        shown_height(v, idx, s.with_len(idx.len() as int), h) > 0,
    ensures
        ({
            let t = prepared(v, idx, s, h);
            let all = frame_lines(v, idx, total, t, cs, w, h);
            &&& 0 <= t.cursor < idx.len()
            &&& TOP <= TOP + t.cursor - t.top < all.len()
            &&& forall|i: int| 0 <= i < all.len() ==> (marked(#[trigger] all[i]) <==> i == TOP + t.cursor - t.top)
        }),
{
    let t = prepared(v, idx, s, h);
    exactly_one_line_carries_the_mark(v, idx, total, t, cs, w, h);
}

// ------------------------------------------------------------------- the shape

/// As long as one another, with white space in the same places.
pub open spec fn same_shape(a: Seq<char>, b: Seq<char>) -> bool {
    &&& a.len() == b.len()
    &&& forall|i: int| 0 <= i < a.len() ==> is_space(#[trigger] a[i]) == is_space(b[i])
}

proof fn lemma_shape_of_sum(a: Seq<char>, b: Seq<char>, c: Seq<char>, d: Seq<char>)
    requires
        same_shape(a, b),
        same_shape(c, d),
    ensures
        same_shape(a + c, b + d),
{
    assert forall|i: int| 0 <= i < (a + c).len() implies is_space(#[trigger] (a + c)[i]) == is_space((b + d)[i]) by {
        if i < a.len() {
            assert((a + c)[i] == a[i] && (b + d)[i] == b[i]);
        } else {
            assert((a + c)[i] == c[i - a.len()] && (b + d)[i] == d[i - a.len()]);
        }
    }
}

proof fn lemma_shape_trimmed(a: Seq<char>, b: Seq<char>)
    requires
        same_shape(a, b),
    ensures
        trim_end(a).len() == trim_end(b).len(),
    decreases a.len(),
{
    if a.len() > 0 {
        assert(is_space(a[a.len() - 1]) == is_space(b[b.len() - 1]));
        if is_space(a.last()) {
            assert forall|i: int| 0 <= i < a.drop_last().len() implies is_space(#[trigger] a.drop_last()[i]) == is_space(
                b.drop_last()[i],
            ) by {
                assert(a.drop_last()[i] == a[i] && b.drop_last()[i] == b[i]);
            }
            lemma_shape_trimmed(a.drop_last(), b.drop_last());
        }
    }
}

proof fn lemma_shape_fitted(a: Seq<char>, b: Seq<char>, w: nat)
    requires
        same_shape(a, b),
    ensures
        fitted(a, w).len() == fitted(b, w).len(),
{
    if a.len() > w {
        let x = a.subrange(0, w as int);
        let y = b.subrange(0, w as int);
        assert forall|i: int| 0 <= i < x.len() implies is_space(#[trigger] x[i]) == is_space(y[i]) by {
            assert(x[i] == a[i] && y[i] == b[i]);
        }
        lemma_shape_trimmed(x, y);
    } else {
        lemma_shape_trimmed(a, b);
    }
}

/// One glyph for another, with the same on either side.
proof fn lemma_swap(a: Seq<char>, b: Seq<char>, x: Seq<char>, y: Seq<char>, rest: Seq<char>)
    requires
        same_shape(a, b),
        same_shape(x, y),
    ensures
        same_shape(a + x + rest, b + y + rest),
{
    lemma_shape_of_sum(a, b, x, y);
    lemma_shape_of_sum(a + x, b + y, rest, rest);
}

proof fn lemma_glyphs()
    ensures
        same_shape(Charset::Unicode.sep_text(), Charset::Ascii.sep_text()),
        same_shape(Charset::Unicode.resident_text(), Charset::Ascii.resident_text()),
        same_shape(Charset::Unicode.partial_text(), Charset::Ascii.partial_text()),
        same_shape(Charset::Unicode.wont_fit_text(), Charset::Ascii.wont_fit_text()),
{
    glyphs_are_one_column(Charset::Unicode, 0);
    glyphs_are_one_column(Charset::Ascii, 0);
    reveal_strlit("●");
    reveal_strlit("*");
    reveal_strlit("◐");
    reveal_strlit("o");
    reveal_strlit("○");
    reveal_strlit(".");
    reveal_strlit("·");
    reveal_strlit("-");
}

proof fn lemma_machine_shape(v: frame::View)
    ensures
        same_shape(machine_line_text(v, Charset::Unicode), machine_line_text(v, Charset::Ascii)),
{
    lemma_glyphs();
    let (x, y) = (Charset::Unicode.sep_text(), Charset::Ascii.sep_text());
    let a = "  zc "@ + v.version@ + "  "@ + v.cpu@ + " "@;
    lemma_shape_of_sum(a, a, x, y);
    lemma_swap_rest(a + x, a + y, " "@);
    lemma_swap_rest(a + x + " "@, a + y + " "@, v.backend@);
    lemma_swap_rest(a + x + " "@ + v.backend@, a + y + " "@ + v.backend@, " "@);
    let (b, c) = (a + x + " "@ + v.backend@ + " "@, a + y + " "@ + v.backend@ + " "@);
    lemma_shape_of_sum(b, c, x, y);
    lemma_swap_rest(b + x, c + y, " "@);
    let g = crate::double::fixed_text(
        crate::double::nearest(crate::double::rounded(v.mem_total as nat), crate::double::pow2(30)),
        0,
    );
    lemma_swap_rest(b + x + " "@, c + y + " "@, g);
    lemma_swap_rest(b + x + " "@ + g, c + y + " "@ + g, " GiB"@);
}

proof fn lemma_swap_rest(a: Seq<char>, b: Seq<char>, rest: Seq<char>)
    requires
        same_shape(a, b),
    ensures
        same_shape(a + rest, b + rest),
{
    lemma_shape_of_sum(a, b, rest, rest);
}

proof fn lemma_measured_shape(v: frame::View)
    ensures
        same_shape(measured_line_text(v, Charset::Unicode), measured_line_text(v, Charset::Ascii)),
{
    lemma_glyphs();
    let (x, y) = (Charset::Unicode.sep_text(), Charset::Ascii.sep_text());
    let a = "  "@ + v.ram_bw_gbs.text(0) + " GB/s ram "@;
    lemma_swap(a, a, x, y, " "@);
    let (b, c) = (a + x + " "@, a + y + " "@);
    lemma_swap_rest(b, c, v.disk_gbs.text(1));
    lemma_swap_rest(b + v.disk_gbs.text(1), c + v.disk_gbs.text(1), " GB/s disk "@);
    let (d, e) = (b + v.disk_gbs.text(1) + " GB/s disk "@, c + v.disk_gbs.text(1) + " GB/s disk "@);
    lemma_swap(d, e, x, y, " "@);
    let (f, g) = (d + x + " "@, e + y + " "@);
    lemma_swap_rest(f, g, v.gflops.text(0));
    lemma_swap_rest(f + v.gflops.text(0), g + v.gflops.text(0), " GFLOPS "@);
    let (m, n) = (f + v.gflops.text(0) + " GFLOPS "@, g + v.gflops.text(0) + " GFLOPS "@);
    lemma_swap(m, n, x, y, " KV "@);
    lemma_swap_rest(m + x + " KV "@, n + y + " KV "@, v.kv@);
}

proof fn lemma_title_shape(v: frame::View, r: RowView)
    ensures
        same_shape(detail_title_text(v, r, Charset::Unicode), detail_title_text(v, r, Charset::Ascii)),
{
    lemma_glyphs();
    let (x, y) = (Charset::Unicode.sep_text(), Charset::Ascii.sep_text());
    let a = "  "@ + r.id@ + " "@;
    lemma_swap(a, a, x, y, " "@);
    let (b, c) = (a + x + " "@, a + y + " "@);
    lemma_swap_rest(b, c, r.quant@);
    lemma_swap_rest(b + r.quant@, c + r.quant@, "   "@);
    lemma_swap_rest(b + r.quant@ + "   "@, c + r.quant@ + "   "@, r.speed@);
    lemma_swap_rest(b + r.quant@ + "   "@ + r.speed@, c + r.quant@ + "   "@ + r.speed@, " tok/s"@);
}

proof fn lemma_footer_shape(n: nat, total: nat, s: StateView)
    ensures
        same_shape(footer_text(n, total, s, Charset::Unicode), footer_text(n, total, s, Charset::Ascii)),
{
    if !s.filtering && !s.help {
        lemma_glyphs();
        let (x, y) = (Charset::Unicode.sep_text(), Charset::Ascii.sep_text());
        let a = "  "@ + dec(n) + " of "@ + dec(total) + " "@;
        lemma_swap(a, a, x, y, " sort "@);
        let (b, c) = (a + x + " sort "@, a + y + " sort "@);
        lemma_swap_rest(b, c, s.sort.label_text());
        lemma_swap_rest(b + s.sort.label_text(), c + s.sort.label_text(), " "@);
        let (d, e) = (b + s.sort.label_text() + " "@, c + s.sort.label_text() + " "@);
        lemma_swap(d, e, x, y, " enter why "@);
        let (d1, e1) = (d + x + " enter why "@, e + y + " enter why "@);
        lemma_swap(d1, e1, x, y, " / filter "@);
        let (d2, e2) = (d1 + x + " / filter "@, e1 + y + " / filter "@);
        lemma_swap(d2, e2, x, y, " a quants "@);
        let (d3, e3) = (d2 + x + " a quants "@, e2 + y + " a quants "@);
        lemma_swap(d3, e3, x, y, " ? keys "@);
        let (d4, e4) = (d3 + x + " ? keys "@, e3 + y + " ? keys "@);
        lemma_swap(d4, e4, x, y, " q quit"@);
    }
}

proof fn lemma_table_shape(
    a: Seq<char>,
    b: Seq<char>,
    id: Seq<char>,
    quant: Seq<char>,
    speed: Seq<char>,
    ctx: Seq<char>,
    ttft: Seq<char>,
    conf: Seq<char>,
    resid: Seq<char>,
    mw: nat,
    c: Cols,
)
    requires
        same_shape(a, b),
    ensures
        same_shape(
            table_row(a, id, quant, speed, ctx, ttft, conf, resid, mw, c),
            table_row(b, id, quant, speed, ctx, ttft, conf, resid, mw, c),
        ),
{
    let p1 = left(id, mw);
    let p2 = left(quant, 7);
    let p3 = right(speed, 11);
    let p4 = if c.ctx { " "@ + right(ctx, 5) } else { ""@ };
    let p5 = if c.ttft { " "@ + right(ttft, 5) } else { ""@ };
    let p6 = if c.conf { " "@ + left(conf, 6) } else { ""@ };
    let p7 = if c.resid { " "@ + right(resid, 4) } else { ""@ };
    lemma_swap_rest(a, b, p1);
    let (a1, b1) = (a + p1, b + p1);
    lemma_swap_rest(a1, b1, " "@);
    let (a2, b2) = (a1 + " "@, b1 + " "@);
    lemma_swap_rest(a2, b2, p2);
    let (a3, b3) = (a2 + p2, b2 + p2);
    lemma_swap_rest(a3, b3, " "@);
    let (a4, b4) = (a3 + " "@, b3 + " "@);
    lemma_swap_rest(a4, b4, p3);
    let (a5, b5) = (a4 + p3, b4 + p3);
    lemma_swap_rest(a5, b5, p4);
    let (a6, b6) = (a5 + p4, b5 + p4);
    lemma_swap_rest(a6, b6, p5);
    let (a7, b7) = (a6 + p5, b6 + p5);
    lemma_swap_rest(a7, b7, p6);
    let (a8, b8) = (a7 + p6, b7 + p6);
    lemma_swap_rest(a8, b8, p7);
}

proof fn lemma_row_shape(r: RowView, on_cursor: bool, mw: nat, c: Cols)
    ensures
        same_shape(list_row(r, Charset::Unicode, on_cursor, mw, c), list_row(r, Charset::Ascii, on_cursor, mw, c)),
{
    lemma_glyphs();
    let a = (if on_cursor { ">"@ } else { " "@ }) + " "@;
    let (x, y) = (dot_of(r, Charset::Unicode), dot_of(r, Charset::Ascii));
    lemma_swap(a, a, x, y, " "@);
    let resid = if crate::report::spills(r.resident) {
        r.resident.in_percent().text(0) + "%"@
    } else {
        ""@
    };
    lemma_table_shape(a + x + " "@, a + y + " "@, r.id@, r.quant@, r.speed@, r.ctx@, r.ttft@, r.conf@, resid, mw, c);
}

/// The lines are as many, and each as long.
pub open spec fn same_lengths(a: Seq<Seq<char>>, b: Seq<Seq<char>>) -> bool {
    &&& a.len() == b.len()
    &&& forall|i: int| 0 <= i < a.len() ==> (#[trigger] a[i]).len() == b[i].len()
}

proof fn lemma_lengths_of_sum(a: Seq<Seq<char>>, b: Seq<Seq<char>>, c: Seq<Seq<char>>, d: Seq<Seq<char>>)
    requires
        same_lengths(a, b),
        same_lengths(c, d),
    ensures
        same_lengths(a + c, b + d),
{
    assert forall|i: int| 0 <= i < (a + c).len() implies (#[trigger] (a + c)[i]).len() == (b + d)[i].len() by {
        if i < a.len() {
            assert((a + c)[i] == a[i] && (b + d)[i] == b[i]);
        } else {
            assert((a + c)[i] == c[i - a.len()] && (b + d)[i] == d[i - a.len()]);
        }
    }
}

proof fn lemma_rule_length(w: nat)
    ensures
        fitted(repeated(Charset::Unicode.rule_char(), w), w).len() == fitted(repeated(Charset::Ascii.rule_char(), w), w).len(),
{
    let (a, b) = (repeated(Charset::Unicode.rule_char(), w), repeated(Charset::Ascii.rule_char(), w));
    assert(same_shape(a, b));
    lemma_shape_fitted(a, b, w);
}

proof fn lemma_header_lengths(v: frame::View, w: nat, mw: nat, c: Cols)
    ensures
        same_lengths(header_lines(v, Charset::Unicode, w, mw, c), header_lines(v, Charset::Ascii, w, mw, c)),
{
    lemma_machine_shape(v);
    lemma_shape_fitted(machine_line_text(v, Charset::Unicode), machine_line_text(v, Charset::Ascii), w);
    lemma_measured_shape(v);
    lemma_shape_fitted(measured_line_text(v, Charset::Unicode), measured_line_text(v, Charset::Ascii), w);
    lemma_rule_length(w);
}

proof fn lemma_list_lengths(v: frame::View, idx: Seq<usize>, s: StateView, w: nat, height: nat, mw: nat, c: Cols)
    ensures
        same_lengths(
            list_lines(v, idx, s, Charset::Unicode, w, height, mw, c),
            list_lines(v, idx, s, Charset::Ascii, w, height, mw, c),
        ),
{
    let a = list_lines(v, idx, s, Charset::Unicode, w, height, mw, c);
    let b = list_lines(v, idx, s, Charset::Ascii, w, height, mw, c);
    assert forall|i: int| 0 <= i < a.len() implies (#[trigger] a[i]).len() == b[i].len() by {
        let r = v.rows@[idx[s.top + i] as int];
        let on = s.top + i == s.cursor;
        lemma_row_shape(r, on, mw, c);
        lemma_shape_fitted(list_row(r, Charset::Unicode, on, mw, c), list_row(r, Charset::Ascii, on, mw, c), w);
    }
}

proof fn lemma_detail_lengths(v: frame::View, idx: Seq<usize>, s: StateView, w: nat)
    ensures
        same_lengths(detail_texts(v, idx, s, Charset::Unicode, w), detail_texts(v, idx, s, Charset::Ascii, w)),
{
    if s.cursor < idx.len() {
        let r = v.rows@[idx[s.cursor] as int];
        lemma_title_shape(v, r);
        lemma_shape_fitted(detail_title_text(v, r, Charset::Unicode), detail_title_text(v, r, Charset::Ascii), w);
        lemma_rule_length(w);
    }
}

proof fn lemma_upper_lengths(v: frame::View, idx: Seq<usize>, s: StateView, w: nat, h: nat)
    ensures
        same_lengths(upper_lines(v, idx, s, Charset::Unicode, w, h), upper_lines(v, idx, s, Charset::Ascii, w, h)),
{
    let (u, a) = (Charset::Unicode, Charset::Ascii);
    let lay = layout_of(v.rows@, idx, w);
    let none = Seq::<Seq<char>>::empty();
    let (du, da) = (
        if s.detail { detail_texts(v, idx, s, u, w) } else { none },
        if s.detail { detail_texts(v, idx, s, a, w) } else { none },
    );
    let (hu, ha) = (if s.help { help_texts(u, w) } else { none }, if s.help { help_texts(a, w) } else { none });
    lemma_detail_lengths(v, idx, s, w);
    lemma_help_lengths(w);
    let height = crate::tui::frame::list_height(h, du.len(), hu.len());
    let empty = if idx.len() == 0 {
        seq![fitted("    nothing matches that filter"@, w)]
    } else {
        none
    };
    lemma_header_lengths(v, w, lay.0, lay.1);
    lemma_list_lengths(v, idx, s, w, height, lay.0, lay.1);
    let (pu, pa) = (header_lines(v, u, w, lay.0, lay.1), header_lines(v, a, w, lay.0, lay.1));
    let (lu, la) = (list_lines(v, idx, s, u, w, height, lay.0, lay.1), list_lines(v, idx, s, a, w, height, lay.0, lay.1));
    lemma_lengths_of_sum(pu, pa, lu, la);
    lemma_lengths_of_sum(pu + lu, pa + la, empty, empty);
    lemma_lengths_of_sum(pu + lu + empty, pa + la + empty, du, da);
    lemma_lengths_of_sum(pu + lu + empty + du, pa + la + empty + da, hu, ha);
    assert(upper_lines(v, idx, s, u, w, h) == pu + lu + empty + du + hu);
    assert(upper_lines(v, idx, s, a, w, h) == pa + la + empty + da + ha);
}

proof fn lemma_help_lengths(w: nat)
    ensures
        same_lengths(help_texts(Charset::Unicode, w), help_texts(Charset::Ascii, w)),
{
    lemma_rule_length(w);
}

proof fn lemma_resized_lengths(x: Seq<Seq<char>>, y: Seq<Seq<char>>, n: nat)
    requires
        same_lengths(x, y),
    ensures
        same_lengths(resized(x, n), resized(y, n)),
{
    let (rx, ry) = (resized(x, n), resized(y, n));
    assert forall|i: int| 0 <= i < rx.len() implies (#[trigger] rx[i]).len() == ry[i].len() by {
        if i < x.len() {
            assert(x[i].len() == y[i].len());
        }
    }
}

proof fn lemma_foot_lengths(n: nat, total: nat, s: StateView, w: nat)
    ensures
        same_lengths(
            seq![
                fitted(repeated(Charset::Unicode.rule_char(), w), w),
                fitted(footer_text(n, total, s, Charset::Unicode), w),
            ],
            seq![
                fitted(repeated(Charset::Ascii.rule_char(), w), w),
                fitted(footer_text(n, total, s, Charset::Ascii), w),
            ],
        ),
{
    lemma_rule_length(w);
    lemma_footer_shape(n, total, s);
    lemma_shape_fitted(footer_text(n, total, s, Charset::Unicode), footer_text(n, total, s, Charset::Ascii), w);
}

/// A frame in ASCII has the shape of the same frame in Unicode: as many lines,
/// and each as long.
pub proof fn both_charsets_have_one_shape(v: frame::View, idx: Seq<usize>, total: nat, s: StateView, w: nat, h: nat)
    ensures
        same_lengths(
            frame_lines(v, idx, total, s, Charset::Unicode, w, h),
            frame_lines(v, idx, total, s, Charset::Ascii, w, h),
        ),
{
    if w >= MIN_W && h >= MIN_H {
        let (x, y) = (upper_lines(v, idx, s, Charset::Unicode, w, h), upper_lines(v, idx, s, Charset::Ascii, w, h));
        let n = (h - BOTTOM) as nat;
        lemma_upper_lengths(v, idx, s, w, h);
        lemma_resized_lengths(x, y, n);
        lemma_foot_lengths(idx.len(), total, s, w);
        lemma_lengths_of_sum(
            resized(x, n),
            resized(y, n),
            seq![
                fitted(repeated(Charset::Unicode.rule_char(), w), w),
                fitted(footer_text(idx.len(), total, s, Charset::Unicode), w),
            ],
            seq![
                fitted(repeated(Charset::Ascii.rule_char(), w), w),
                fitted(footer_text(idx.len(), total, s, Charset::Ascii), w),
            ],
        );
    }
}

} // verus!
