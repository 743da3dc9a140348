//! What holds of every report.

use vstd::prelude::*;
use crate::chars::{
    contains, dec, dec_places, find, index_of, is_space, join, left, lemma_dec_digits, lemma_dec_places_digits, lemma_index_of, occurs_at,
    repeated, replaced, right, split, trim_end, word_end, words,
};
use crate::bench::{DiskResult, ThreadRate};
use crate::double::{fixed_text, nearest, pow2, rounded, Double, THOUSAND_BITS};
use crate::predict::Verdict;
use crate::probe::gpu::Gpu;
use crate::probe::human_text;
use crate::probe::storage::{hazard_text, Hazard, HazardView};
use crate::report::text::{
    backend_label_text, bandwidth_text, budget_line_text, closing_lines, compute_line_text, cpu_line_text, curve_point, curve_text,
    disk_line_text, gpu_line_text, hardware_lines, heading_text, kv_label_text, mark_of, measured_lines, note_lines, painted, ram_line_text,
    report_lines, row_text, storage_line_text, stripped, stripped_all, table_lines, warning_lines, GREEN, RED, RESET, YELLOW,
};
use crate::report::{ctx_text, filled, filled_lines, redacted, room_for, speed_text, spills, ttft_text, wrapped, Report, Row};

verus! {

/// The character that starts a colour sequence.
pub const ESCAPE: char = '\u{1b}';

pub open spec fn no_escape(s: Seq<char>) -> bool {
    forall|i: int| 0 <= i < s.len() ==> #[trigger] s[i] != ESCAPE
}

// ------------------------------------------------------------------ the colours

/// The text without its colour sequences, each from the escape character to the
/// letter that ends it.
pub open spec fn uncoloured(s: Seq<char>) -> Seq<char>
    decreases s.len(),
{
    if s.len() == 0 {
        s
    } else if s[0] == ESCAPE {
        let end = index_of(s, 'm', 0);
        if 0 <= end < s.len() {
            uncoloured(s.subrange(end + 1, s.len() as int))
        } else {
            Seq::empty()
        }
    } else {
        seq![s[0]] + uncoloured(s.subrange(1, s.len() as int))
    }
}

/// Whatever follows, `a` leaves `b`.
spec fn leaves(a: Seq<char>, b: Seq<char>) -> bool {
    forall|z: Seq<char>| #[trigger] uncoloured(a + z) == b + uncoloured(z)
}

proof fn lemma_plain_stays(a: Seq<char>, z: Seq<char>)
    requires
        no_escape(a),
    ensures
        uncoloured(a + z) == a + uncoloured(z),
    decreases a.len(),
{
    if a.len() == 0 {
        assert(a + z =~= z);
        assert(a + uncoloured(z) =~= uncoloured(z));
    } else {
        let t = a.subrange(1, a.len() as int);
        assert forall|i: int| 0 <= i < t.len() implies #[trigger] t[i] != ESCAPE by {
            assert(t[i] == a[i + 1]);
        }
        lemma_plain_stays(t, z);
        assert((a + z)[0] == a[0]);
        assert((a + z).subrange(1, (a + z).len() as int) =~= t + z);
        assert(seq![a[0]] + (t + uncoloured(z)) =~= a + uncoloured(z));
    }
}

proof fn lemma_plain_leaves(a: Seq<char>)
    requires
        no_escape(a),
    ensures
        leaves(a, a),
{
    assert forall|z: Seq<char>| #[trigger] uncoloured(a + z) == a + uncoloured(z) by {
        lemma_plain_stays(a, z);
    }
}

proof fn lemma_leaves_sum(a: Seq<char>, b: Seq<char>, c: Seq<char>, d: Seq<char>)
    requires
        leaves(a, b),
        leaves(c, d),
    ensures
        leaves(a + c, b + d),
{
    assert forall|z: Seq<char>| #[trigger] uncoloured((a + c) + z) == (b + d) + uncoloured(z) by {
        assert((a + c) + z =~= a + (c + z));
        assert(uncoloured(a + (c + z)) == b + uncoloured(c + z));
        assert(uncoloured(c + z) == d + uncoloured(z));
        assert(b + (d + uncoloured(z)) =~= (b + d) + uncoloured(z));
    }
}

/// A colour sequence leaves nothing.
spec fn is_sequence(code: Seq<char>) -> bool {
    &&& code.len() >= 2
    &&& code[0] == ESCAPE
    &&& code.last() == 'm'
    &&& forall|i: int| 0 <= i < code.len() - 1 ==> #[trigger] code[i] != 'm'
}

proof fn lemma_index_is(s: Seq<char>, c: char, from: int, k: int)
    requires
        0 <= from <= k < s.len(),
        s[k] == c,
        forall|i: int| from <= i < k ==> #[trigger] s[i] != c,
    ensures
        index_of(s, c, from) == k,
    decreases k - from,
{
    if from < k {
        lemma_index_is(s, c, from + 1, k);
    }
}

proof fn lemma_sequence_leaves(code: Seq<char>)
    requires
        is_sequence(code),
    ensures
        leaves(code, Seq::empty()),
{
    assert forall|z: Seq<char>| #[trigger] uncoloured(code + z) == Seq::<char>::empty() + uncoloured(z) by {
        let s = code + z;
        let k = code.len() - 1;
        assert(s[0] == ESCAPE);
        assert(s[k] == 'm');
        assert forall|i: int| 0 <= i < k implies #[trigger] s[i] != 'm' by {
            assert(s[i] == code[i]);
        }
        lemma_index_is(s, 'm', 0, k);
        assert(s.subrange(k + 1, s.len() as int) =~= z);
        assert(Seq::<char>::empty() + uncoloured(z) =~= uncoloured(z));
    }
}

proof fn lemma_codes()
    ensures
        is_sequence(GREEN@),
        is_sequence(YELLOW@),
        is_sequence(RED@),
        is_sequence(RESET@),
        forall|i: int| 0 <= i < GREEN@.len() ==> #[trigger] GREEN@[i] != '\n',
        forall|i: int| 0 <= i < YELLOW@.len() ==> #[trigger] YELLOW@[i] != '\n',
        forall|i: int| 0 <= i < RED@.len() ==> #[trigger] RED@[i] != '\n',
        forall|i: int| 0 <= i < RESET@.len() ==> #[trigger] RESET@[i] != '\n',
{
    reveal_strlit("\u{1b}[32m");
    reveal_strlit("\u{1b}[33m");
    reveal_strlit("\u{1b}[31m");
    reveal_strlit("\u{1b}[0m");
}

// -------------------------------------------------------------------- the lines

pub open spec fn one_line(s: Seq<char>) -> bool {
    forall|i: int| 0 <= i < s.len() ==> #[trigger] s[i] != '\n'
}

/// The first line of `s` holds more than white space.
pub open spec fn opens(s: Seq<char>) -> bool {
    exists|k: int| #[trigger] opens_at(s, k)
}

pub open spec fn opens_at(s: Seq<char>, k: int) -> bool {
    &&& 0 <= k < s.len()
    &&& !is_space(s[k])
    &&& one_line(s.subrange(0, k))
}

proof fn lemma_opens_start(s: Seq<char>, z: Seq<char>)
    requires
        opens(s),
    ensures
        opens(s + z),
{
    let k = choose|k: int| #[trigger] opens_at(s, k);
    assert((s + z).subrange(0, k) =~= s.subrange(0, k));
    assert(opens_at(s + z, k));
}

proof fn lemma_opens_behind(a: Seq<char>, s: Seq<char>)
    requires
        one_line(a),
        opens(s),
    ensures
        opens(a + s),
{
    let k = choose|k: int| #[trigger] opens_at(s, k);
    lemma_one_line_sum(a, s.subrange(0, k));
    assert((a + s).subrange(0, a.len() + k) =~= a + s.subrange(0, k));
    assert(opens_at(a + s, a.len() + k));
}

proof fn lemma_trim_keeps_start(a: Seq<char>, b: Seq<char>)
    requires
        trim_end(b).len() > 0,
    ensures
        trim_end(a + b) == a + trim_end(b),
    decreases b.len(),
{
    let s = a + b;
    if b.len() > 0 {
        assert(s.last() == b.last());
        if is_space(b.last()) {
            lemma_trim_keeps_start(a, b.drop_last());
            assert(s.drop_last() =~= a + b.drop_last());
        }
    }
}

proof fn lemma_trim_stops(s: Seq<char>, k: int)
    requires
        0 <= k < s.len(),
        !is_space(s[k]),
    ensures
        trim_end(s).len() > k,
    decreases s.len(),
{
    if is_space(s.last()) {
        assert(s.drop_last()[k] == s[k]);
        lemma_trim_stops(s.drop_last(), k);
    }
}

proof fn lemma_trim_is_start(s: Seq<char>)
    ensures
        trim_end(s).len() <= s.len(),
        trim_end(s) == s.subrange(0, trim_end(s).len() as int),
        trim_end(s).len() > 0 ==> !is_space(trim_end(s).last()),
    decreases s.len(),
{
    if s.len() > 0 && is_space(s.last()) {
        lemma_trim_is_start(s.drop_last());
        let n = trim_end(s).len() as int;
        assert(s.drop_last().subrange(0, n) =~= s.subrange(0, n));
    } else {
        assert(s.subrange(0, s.len() as int) =~= s);
    }
}

/// Behind a start that does not end in white space nothing of it is taken.
proof fn lemma_trim_stops_behind(k: Seq<char>, b: Seq<char>)
    requires
        k.len() > 0,
        !is_space(k.last()),
    ensures
        trim_end(k + b) == k + trim_end(b),
    decreases b.len(),
{
    let s = k + b;
    if b.len() == 0 {
        assert(s =~= k);
    } else {
        assert(s.last() == b.last());
        if is_space(b.last()) {
            lemma_trim_stops_behind(k, b.drop_last());
            assert(s.drop_last() =~= k + b.drop_last());
        }
    }
}

proof fn lemma_first_line_opens(s: Seq<char>)
    requires
        opens(s),
    ensures
        trim_end(split(s, '\n')[0]).len() > 0,
{
    let k = choose|k: int| #[trigger] opens_at(s, k);
    let e = index_of(s, '\n', 0);
    lemma_index_of(s, '\n', 0);
    assert(is_space('\n'));
    if e < s.len() {
        if e < k {
            assert(s.subrange(0, k)[e] == s[e]);
        }
        assert(split(s, '\n')[0] == s.subrange(0, e));
        lemma_trim_stops(s.subrange(0, e), k);
    } else {
        assert(split(s, '\n')[0] == s);
        lemma_trim_stops(s, k);
    }
}

// ------------------------------------------------------------------- the starts

/// The same lines, with `k` in front of the first.
spec fn behind(k: Seq<char>, parts: Seq<Seq<char>>) -> Seq<Seq<char>> {
    parts.update(0, k + parts[0])
}

proof fn lemma_split_behind(k: Seq<char>, b: Seq<char>)
    requires
        one_line(k),
    ensures
        split(b, '\n').len() > 0,
        split(k + b, '\n') == behind(k, split(b, '\n')),
{
    let s = k + b;
    let e = index_of(b, '\n', 0);
    lemma_index_of(b, '\n', 0);
    assert forall|i: int| 0 <= i < k.len() + e implies #[trigger] s[i] != '\n' by {
        if i < k.len() {
            assert(s[i] == k[i]);
        } else {
            assert(s[i] == b[i - k.len()]);
        }
    }
    if e < b.len() {
        let rest = b.subrange(e + 1, b.len() as int);
        lemma_index_is(s, '\n', 0, k.len() + e);
        assert(s.subrange(k.len() + e + 1, s.len() as int) =~= rest);
        assert(s.subrange(0, k.len() + e) =~= k + b.subrange(0, e));
        assert(split(s, '\n') =~= behind(k, split(b, '\n')));
    } else {
        lemma_index_of(s, '\n', 0);
        assert(split(s, '\n') =~= behind(k, split(b, '\n')));
    }
}

proof fn lemma_join_behind(k: Seq<char>, parts: Seq<Seq<char>>, sep: Seq<char>)
    requires
        parts.len() > 0,
    ensures
        join(behind(k, parts), sep) == k + join(parts, sep),
    decreases parts.len(),
{
    if parts.len() > 1 {
        let rest = parts.drop_last();
        lemma_join_behind(k, rest, sep);
        assert(behind(k, parts).drop_last() =~= behind(k, rest));
        assert(behind(k, parts).last() == parts.last());
        lemma_assoc(k, join(rest, sep), sep);
        lemma_assoc(k, join(rest, sep) + sep, parts.last());
    }
}

/// Behind a start of one line, where that line goes on with text or the start
/// does not end in white space, stripping leaves the start as it is.
proof fn lemma_stripped_behind(k: Seq<char>, b: Seq<char>)
    requires
        one_line(k),
        opens(b) || (k.len() > 0 && !is_space(k.last())),
    ensures
        stripped(k + b) == k + stripped(b),
{
    let parts = split(b, '\n');
    lemma_split_behind(k, b);
    if opens(b) {
        lemma_first_line_opens(b);
        lemma_trim_keeps_start(k, parts[0]);
    } else {
        lemma_trim_stops_behind(k, parts[0]);
    }
    let trimmed = parts.map_values(|l: Seq<char>| trim_end(l));
    assert(behind(k, parts).map_values(|l: Seq<char>| trim_end(l)) =~= behind(k, trimmed));
    lemma_join_behind(k, trimmed, "\n"@);
    lemma_assoc(k, join(trimmed, "\n"@), "\n"@);
}

// --------------------------------------------------------------- the rows' parts

/// What stands behind the mark of a row.
spec fn behind_mark(row: Row) -> Seq<char> {
    with_columns(" "@ + left(row.model_id@, 28) + " "@ + left(row.quant.name@, 7), row) + spill_text(row)
}

spec fn with_columns(names: Seq<char>, row: Row) -> Seq<char> {
    let p = row.prediction;
    names + " "@ + right(speed_text(p), 12) + " "@ + right(ctx_text(p), 7) + " "@ + right(ttft_text(p), 6) + "  "@ + left(
        p.confidence.label_text(),
        6,
    )
}

spec fn spill_text(row: Row) -> Seq<char> {
    if spills(row.prediction.resident_fraction) {
        "  "@ + row.prediction.resident_fraction.in_percent().text(0) + "% resident"@
    } else {
        ""@
    }
}

proof fn lemma_row_parts(row: Row, color: bool)
    ensures
        ({
            let m = mark_of(row.prediction.verdict);
            row_text(row, color) == ("  "@ + painted(left(m.0, 4), m.1, color)) + behind_mark(row)
        }),
{
    let p = row.prediction;
    let m = mark_of(p.verdict);
    let c = "  "@ + painted(left(m.0, 4), m.1, color);
    let rest = if spills(p.resident_fraction) {
        "  "@ + p.resident_fraction.in_percent().text(0) + "% resident"@
    } else {
        ""@
    };
    let b1 = " "@ + left(row.model_id@, 28);
    lemma_assoc(c, " "@, left(row.model_id@, 28));
    lemma_assoc(c, b1, " "@);
    let b2 = b1 + " "@ + left(row.quant.name@, 7);
    lemma_assoc(c, b1 + " "@, left(row.quant.name@, 7));
    lemma_assoc(c, b2, " "@);
    let b3 = b2 + " "@ + right(speed_text(p), 12);
    lemma_assoc(c, b2 + " "@, right(speed_text(p), 12));
    lemma_assoc(c, b3, " "@);
    let b4 = b3 + " "@ + right(ctx_text(p), 7);
    lemma_assoc(c, b3 + " "@, right(ctx_text(p), 7));
    lemma_assoc(c, b4, " "@);
    let b5 = b4 + " "@ + right(ttft_text(p), 6);
    lemma_assoc(c, b4 + " "@, right(ttft_text(p), 6));
    lemma_assoc(c, b5, "  "@);
    let b6 = b5 + "  "@ + left(p.confidence.label_text(), 6);
    lemma_assoc(c, b5 + "  "@, left(p.confidence.label_text(), 6));
    lemma_assoc(c, b6, rest);
}

proof fn lemma_assoc(a: Seq<char>, b: Seq<char>, c: Seq<char>)
    ensures
        a + b + c == a + (b + c),
{
    assert(a + b + c =~= a + (b + c));
}

/// Text follows the mark of a row on the mark's own line: in the model's name,
/// in the quantisation's behind a name of one line, or in the columns behind
/// two names of one line.
pub open spec fn text_follows_mark(row: Row) -> bool {
    let (model, quant) = (row.model_id@, row.quant.name@);
    opens(model) || (one_line(model) && (opens(quant) || one_line(quant)))
}

proof fn lemma_behind_mark_opens(row: Row)
    requires
        text_follows_mark(row),
    ensures
        opens(behind_mark(row)),
{
    let (model, quant) = (row.model_id@, row.quant.name@);
    reveal_strlit(" ");
    let a = " "@ + left(model, 28);
    let b = a + " "@;
    let c = b + left(quant, 7);
    let f = with_columns(c, row);
    if opens(model) {
        lemma_opens_start(model, repeated(' ', crate::chars::missing(model.len(), 28)));
        lemma_opens_behind(" "@, left(model, 28));
        lemma_opens_start(a, " "@);
        lemma_opens_start(b, left(quant, 7));
        lemma_opens_through(row, c, f);
    } else {
        lemma_padded(model, 28, '\n');
        lemma_free_sum(" "@, left(model, 28), '\n');
        lemma_free_sum(a, " "@, '\n');
        if opens(quant) {
            lemma_opens_start(quant, repeated(' ', crate::chars::missing(quant.len(), 7)));
            lemma_opens_behind(b, left(quant, 7));
            lemma_opens_through(row, c, f);
        } else {
            lemma_padded(quant, 7, '\n');
            lemma_free_sum(b, left(quant, 7), '\n');
            lemma_columns_open(row, c, f);
        }
    }
}

/// What opens before the columns opens with them.
proof fn lemma_opens_through(row: Row, c: Seq<char>, f: Seq<char>)
    requires
        opens(c),
        f == with_columns(c, row),
    ensures
        opens(f + spill_text(row)),
{
    let p = row.prediction;
    lemma_opens_start(c, " "@);
    let d = c + " "@;
    lemma_opens_start(d, right(speed_text(p), 12));
    let e = d + right(speed_text(p), 12);
    lemma_opens_start(e, " "@);
    lemma_opens_start(e + " "@, right(ctx_text(p), 7));
    let g = e + " "@ + right(ctx_text(p), 7);
    lemma_opens_start(g, " "@);
    lemma_opens_start(g + " "@, right(ttft_text(p), 6));
    let h = g + " "@ + right(ttft_text(p), 6);
    lemma_opens_start(h, "  "@);
    lemma_opens_start(h + "  "@, left(p.confidence.label_text(), 6));
    lemma_opens_start(f, spill_text(row));
}

/// The columns open what stands on one line before them.
proof fn lemma_columns_open(row: Row, c: Seq<char>, f: Seq<char>)
    requires
        one_line(c),
        f == with_columns(c, row),
    ensures
        opens(f + spill_text(row)),
{
    let p = row.prediction;
    let l = p.confidence.label_text();
    reveal_strlit(" ");
    reveal_strlit("  ");
    reveal_strlit("high");
    reveal_strlit("medium");
    reveal_strlit("low");
    reveal_strlit("prior");
    lemma_cells(row, '\n');
    lemma_padded(speed_text(p), 12, '\n');
    lemma_padded(ctx_text(p), 7, '\n');
    lemma_padded(ttft_text(p), 6, '\n');
    lemma_free_sum(c, " "@, '\n');
    let d = c + " "@;
    lemma_free_sum(d, right(speed_text(p), 12), '\n');
    let e = d + right(speed_text(p), 12);
    lemma_free_sum(e, " "@, '\n');
    lemma_free_sum(e + " "@, right(ctx_text(p), 7), '\n');
    let g = e + " "@ + right(ctx_text(p), 7);
    lemma_free_sum(g, " "@, '\n');
    lemma_free_sum(g + " "@, right(ttft_text(p), 6), '\n');
    let h = g + " "@ + right(ttft_text(p), 6);
    lemma_free_sum(h, "  "@, '\n');
    let cell = left(l, 6);
    assert(l.len() > 0 && !is_space(l[0]) && cell[0] == l[0]);
    assert(opens_at(cell, 0));
    lemma_opens_behind(h + "  "@, cell);
    lemma_opens_start(f, spill_text(row));
}

proof fn lemma_one_line_sum(a: Seq<char>, b: Seq<char>)
    requires
        one_line(a),
        one_line(b),
    ensures
        one_line(a + b),
{
    assert forall|i: int| 0 <= i < (a + b).len() implies #[trigger] (a + b)[i] != '\n' by {
        if i < a.len() {
            assert((a + b)[i] == a[i]);
        } else {
            assert((a + b)[i] == b[i - a.len()]);
        }
    }
}

proof fn lemma_painted_leaves(start: Seq<char>, code: Seq<char>, cell: Seq<char>, reset: Seq<char>, tail: Seq<char>)
    requires
        no_escape(start),
        no_escape(cell),
        no_escape(tail),
        is_sequence(code),
        is_sequence(reset),
    ensures
        leaves((start + (code + cell + reset)) + tail, (start + cell) + tail),
{
    let none = Seq::<char>::empty();
    lemma_plain_leaves(start);
    lemma_plain_leaves(cell);
    lemma_plain_leaves(tail);
    lemma_sequence_leaves(code);
    lemma_sequence_leaves(reset);
    lemma_leaves_sum(code, none, cell, cell);
    lemma_leaves_sum(code + cell, none + cell, reset, none);
    assert(none + cell + none =~= cell);
    lemma_leaves_sum(start, start, code + cell + reset, cell);
    lemma_leaves_sum(start + (code + cell + reset), start + cell, tail, tail);
}

/// What holds of a whole holds of its parts.
proof fn lemma_parts_of(k: Seq<char>, cell: Seq<char>, b: Seq<char>)
    requires
        no_escape((k + cell) + b),
    ensures
        no_escape(k) && no_escape(cell) && no_escape(b),
{
    let s = (k + cell) + b;
    assert forall|i: int| 0 <= i < k.len() implies #[trigger] k[i] != ESCAPE by {
        assert(s[i] == k[i]);
    }
    assert forall|i: int| 0 <= i < cell.len() implies #[trigger] cell[i] != ESCAPE by {
        assert(s[k.len() + i] == cell[i]);
    }
    assert forall|i: int| 0 <= i < b.len() implies #[trigger] b[i] != ESCAPE by {
        assert(s[k.len() + cell.len() + i] == b[i]);
    }
}

/// The mark of a row that is slow fills its column.
proof fn lemma_mark_cell(v: Verdict)
    ensures
        one_line("  "@ + left(mark_of(v).0, 4)),
        v == Verdict::Slow ==> !is_space(("  "@ + left(mark_of(v).0, 4)).last()),
{
    let m = mark_of(v).0;
    reveal_strlit("  ");
    reveal_strlit("OK");
    reveal_strlit("ok");
    reveal_strlit("SLOW");
    reveal_strlit("XX");
    lemma_padded(m, 4, '\n');
    lemma_free_sum("  "@, left(m, 4), '\n');
    if v == Verdict::Slow {
        assert(left(m, 4) =~= m);
        assert(m.last() == 'W');
    }
}

proof fn lemma_row_leaves(row: Row)
    requires
        no_escape(row_text(row, false)),
        text_follows_mark(row) || row.prediction.verdict == Verdict::Slow,
    ensures
        leaves(stripped(row_text(row, true)), stripped(row_text(row, false))),
{
    let m = mark_of(row.prediction.verdict);
    let cell = left(m.0, 4);
    let code = m.1;
    let b = behind_mark(row);
    let start = "  "@;
    let coloured = start + (code + cell + RESET@);
    lemma_row_parts(row, true);
    lemma_row_parts(row, false);
    lemma_codes();
    lemma_parts_of(start, cell, b);
    lemma_mark_cell(row.prediction.verdict);
    if text_follows_mark(row) {
        lemma_behind_mark_opens(row);
    }
    assert(one_line(start) && one_line(cell)) by {
        let s = start + cell;
        assert forall|i: int| 0 <= i < start.len() implies #[trigger] start[i] != '\n' by {
            assert(s[i] == start[i]);
        }
        assert forall|i: int| 0 <= i < cell.len() implies #[trigger] cell[i] != '\n' by {
            assert(s[start.len() + i] == cell[i]);
        }
    }
    lemma_one_line_sum(code, cell);
    lemma_one_line_sum(code + cell, RESET@);
    lemma_one_line_sum(start, code + cell + RESET@);
    assert(coloured.last() == RESET@.last() && !is_space('m'));
    lemma_stripped_behind(start + cell, b);
    lemma_stripped_behind(coloured, b);
    lemma_stripped_tidy(b);
    lemma_painted_leaves(start, code, cell, RESET@, stripped(b));
}

// ------------------------------------------------------------------ all of them

pub proof fn lemma_split_parts(s: Seq<char>, c: char)
    ensures
        split(s, c).len() > 0,
        forall|k: int, i: int| 0 <= k < split(s, c).len() && 0 <= i < split(s, c)[k].len() ==> #[trigger] split(s, c)[k][i] != c,
        forall|k: int, i: int|
            0 <= k < split(s, c).len() && 0 <= i < split(s, c)[k].len() ==> s.contains(#[trigger] split(s, c)[k][i]),
    decreases s.len(),
{
    let e = index_of(s, c, 0);
    lemma_index_of(s, c, 0);
    if 0 <= e < s.len() {
        let rest = s.subrange(e + 1, s.len() as int);
        lemma_split_parts(rest, c);
        let first = s.subrange(0, e);
        let all = seq![first] + split(rest, c);
        assert(split(s, c) == all);
        assert forall|k: int, i: int| 0 <= k < all.len() && 0 <= i < all[k].len() implies #[trigger] all[k][i] != c && s.contains(all[k][i]) by {
            if k == 0 {
                assert(all[k][i] == s[i]);
            } else {
                assert(all[k] == split(rest, c)[k - 1]);
                let x = split(rest, c)[k - 1][i];
                assert(rest.contains(x));
                let j = choose|j: int| 0 <= j < rest.len() && rest[j] == x;
                assert(s[e + 1 + j] == x);
            }
        }
    } else {
        assert(split(s, c) == seq![s]);
        assert forall|i: int| 0 <= i < s.len() implies s[i] != c && s.contains(#[trigger] s[i]) by {
        }
    }
}

/// No line ends in white space: where a line feed stands, no other white space
/// stands before it.
pub open spec fn tidy(s: Seq<char>) -> bool {
    forall|i: int| 0 < i < s.len() && #[trigger] s[i] == '\n' ==> s[i - 1] == '\n' || !is_space(s[i - 1])
}

spec fn tidy_end(s: Seq<char>) -> bool {
    s.len() > 0 ==> s.last() == '\n' || !is_space(s.last())
}

proof fn lemma_tidy_sum(a: Seq<char>, b: Seq<char>)
    requires
        tidy(a),
        tidy_end(a),
        tidy(b),
        tidy_end(b),
    ensures
        tidy(a + b),
        tidy_end(a + b),
{
    let s = a + b;
    assert forall|i: int| 0 < i < s.len() && #[trigger] s[i] == '\n' implies s[i - 1] == '\n' || !is_space(s[i - 1]) by {
        if i < a.len() {
            assert(a[i] == s[i] && a[i - 1] == s[i - 1]);
        } else if i == a.len() {
            assert(s[i - 1] == a.last());
        } else {
            assert(b[i - a.len()] == s[i] && b[i - a.len() - 1] == s[i - 1]);
        }
    }
    if b.len() > 0 {
        assert(s.last() == b.last());
    } else {
        assert(s =~= a);
    }
}

proof fn lemma_join_tidy(parts: Seq<Seq<char>>)
    requires
        forall|k: int| 0 <= k < parts.len() ==> one_line(#[trigger] parts[k]) && tidy_end(parts[k]),
    ensures
        tidy(join(parts, "\n"@)),
        tidy_end(join(parts, "\n"@)),
    decreases parts.len(),
{
    reveal_strlit("\n");
    if parts.len() == 1 {
        assert(one_line(parts[0]) && tidy_end(parts[0]));
    } else if parts.len() > 1 {
        let rest = parts.drop_last();
        assert forall|k: int| 0 <= k < rest.len() implies one_line(#[trigger] rest[k]) && tidy_end(rest[k]) by {
            assert(rest[k] == parts[k]);
        }
        lemma_join_tidy(rest);
        let l = parts[parts.len() - 1];
        assert(one_line(l) && tidy_end(l));
        lemma_tidy_sum(join(rest, "\n"@), "\n"@);
        lemma_tidy_sum(join(rest, "\n"@) + "\n"@, l);
    }
}

proof fn lemma_join_no_escape(parts: Seq<Seq<char>>, sep: Seq<char>)
    requires
        forall|k: int| 0 <= k < parts.len() ==> no_escape(#[trigger] parts[k]),
        no_escape(sep),
    ensures
        no_escape(join(parts, sep)),
    decreases parts.len(),
{
    if parts.len() == 1 {
        assert(no_escape(parts[0]));
    } else if parts.len() > 1 {
        let rest = parts.drop_last();
        assert forall|k: int| 0 <= k < rest.len() implies no_escape(#[trigger] rest[k]) by {
            assert(rest[k] == parts[k]);
        }
        lemma_join_no_escape(rest, sep);
        let l = parts[parts.len() - 1];
        assert(no_escape(l));
        lemma_free_sum(join(rest, sep), sep, ESCAPE);
        lemma_free_sum(join(rest, sep) + sep, l, ESCAPE);
    }
}

proof fn lemma_stripped_tidy(s: Seq<char>)
    ensures
        tidy(stripped(s)),
        tidy_end(stripped(s)),
        no_escape(s) ==> no_escape(stripped(s)),
{
    reveal_strlit("\n");
    lemma_split_parts(s, '\n');
    let raw = split(s, '\n');
    let parts = raw.map_values(|l: Seq<char>| trim_end(l));
    assert forall|k: int| 0 <= k < parts.len() implies one_line(#[trigger] parts[k]) && tidy_end(parts[k]) by {
        lemma_trim_is_start(raw[k]);
        assert(parts[k] == trim_end(raw[k]));
        assert forall|i: int| 0 <= i < parts[k].len() implies #[trigger] parts[k][i] != '\n' by {
            assert(parts[k][i] == raw[k][i]);
        }
    }
    lemma_join_tidy(parts);
    lemma_tidy_sum(join(parts, "\n"@), "\n"@);
    if no_escape(s) {
        assert forall|k: int| 0 <= k < parts.len() implies no_escape(#[trigger] parts[k]) by {
            lemma_trim_is_start(raw[k]);
            assert forall|i: int| 0 <= i < parts[k].len() implies #[trigger] parts[k][i] != ESCAPE by {
                assert(parts[k][i] == raw[k][i]);
                assert(s.contains(raw[k][i]));
            }
        }
        lemma_join_no_escape(parts, "\n"@);
        let a = join(parts, "\n"@);
        assert forall|i: int| 0 <= i < stripped(s).len() implies #[trigger] stripped(s)[i] != ESCAPE by {
            if i < a.len() {
                assert(stripped(s)[i] == a[i]);
            }
        }
    }
}

/// No line of a report ends in white space, in colour or plain.
pub proof fn no_line_ends_in_white_space(lines: Seq<Seq<char>>)
    ensures
        tidy(stripped_all(lines)),
        stripped_all(lines).len() > 0 ==> stripped_all(lines).last() == '\n',
    decreases lines.len(),
{
    reveal_strlit("\n");
    if lines.len() > 0 {
        no_line_ends_in_white_space(lines.drop_last());
        lemma_stripped_tidy(lines.last());
        lemma_tidy_sum(stripped_all(lines.drop_last()), stripped(lines.last()));
    }
}

proof fn lemma_all_leave(a: Seq<Seq<char>>, b: Seq<Seq<char>>)
    requires
        a.len() == b.len(),
        forall|i: int| 0 <= i < a.len() ==> leaves(stripped(#[trigger] a[i]), stripped(b[i])),
    ensures
        leaves(stripped_all(a), stripped_all(b)),
    decreases a.len(),
{
    if a.len() == 0 {
        lemma_plain_leaves(Seq::<char>::empty());
    } else {
        let (x, y) = (a.drop_last(), b.drop_last());
        assert forall|i: int| 0 <= i < x.len() implies leaves(stripped(#[trigger] x[i]), stripped(y[i])) by {
            assert(x[i] == a[i] && y[i] == b[i]);
        }
        lemma_all_leave(x, y);
        let n = a.len() - 1;
        assert(leaves(stripped(a[n]), stripped(b[n])));
        lemma_leaves_sum(stripped_all(x), stripped_all(y), stripped(a.last()), stripped(b.last()));
    }
}

proof fn lemma_all_without_escape(a: Seq<Seq<char>>)
    requires
        forall|i: int| 0 <= i < a.len() ==> no_escape(#[trigger] a[i]),
    ensures
        no_escape(stripped_all(a)),
    decreases a.len(),
{
    if a.len() > 0 {
        let x = a.drop_last();
        assert forall|i: int| 0 <= i < x.len() implies no_escape(#[trigger] x[i]) by {
            assert(x[i] == a[i]);
        }
        lemma_all_without_escape(x);
        assert(no_escape(a[a.len() - 1]));
        lemma_stripped_tidy(a.last());
        let (p, q) = (stripped_all(x), stripped(a.last()));
        assert forall|i: int| 0 <= i < (p + q).len() implies #[trigger] (p + q)[i] != ESCAPE by {
            if i < p.len() {
                assert((p + q)[i] == p[i]);
            } else {
                assert((p + q)[i] == q[i - p.len()]);
            }
        }
    }
}


proof fn lemma_lines_pair(r: Report, i: int)
    requires
        0 <= i < report_lines(r, false).len(),
    ensures
        report_lines(r, true).len() == report_lines(r, false).len(),
        report_lines(r, true)[i] == report_lines(r, false)[i] || exists|k: int|
            0 <= k < r.models@.len() && report_lines(r, true)[i] == #[trigger] row_text(r.models@[k], true) && report_lines(r, false)[i]
                == row_text(r.models@[k], false),
{
    let head = hardware_lines(r) + measured_lines(r) + seq![
        heading_text(r),
    ] + note_lines(r);
    let tail = closing_lines(r) + warning_lines(r);
    let (t, f) = (table_lines(r, true), table_lines(r, false));
    assert(report_lines(r, true) =~= head + t + tail);
    assert(report_lines(r, false) =~= head + f + tail);
    assert(t.len() == f.len());
    if head.len() <= i < head.len() + t.len() {
        let k = i - head.len();
        if k > 0 {
            assert(t[k] == row_text(r.models@[k - 1], true));
            assert(f[k] == row_text(r.models@[k - 1], false));
        }
    }
}

/// No text of the report holds an escape character of its own.
pub open spec fn plain_texts(r: Report) -> bool {
    &&& no_escape(r.cpu.brand@)
    &&& no_escape(r.storage.mount@)
    &&& no_escape(r.storage.fstype@)
    &&& forall|k: int| 0 <= k < r.gpus@.len() ==> no_escape((#[trigger] r.gpus@[k]).name@)
    &&& forall|k: int| 0 <= k < r.storage.hazards@.len() ==> plain_hazard((#[trigger] r.storage.hazards@[k])@)
    &&& r.env.warning matches Some(w) ==> no_escape(w@)
    &&& forall|k: int|
        0 <= k < r.models@.len() ==> no_escape((#[trigger] r.models@[k]).model_id@) && no_escape(r.models@[k].quant.name@)
}

pub open spec fn plain_hazard(h: HazardView) -> bool {
    match h {
        HazardView::CloudSync(p) => no_escape(p),
        HazardView::NetworkMount(f) => no_escape(f),
        _ => true,
    }
}

/// Colour changes nothing but the colours: the coloured report without its
/// colour sequences is the plain one, to the character, and the plain one holds
/// none. No text of the report holds an escape character of its own. Behind the
/// mark of each row text follows on its line; a mark that fills its column, that
/// of a slow model, needs none.
pub proof fn colour_changes_only_the_colours(r: Report)
    requires
        plain_texts(r),
        forall|k: int|
            0 <= k < r.models@.len() ==> text_follows_mark(#[trigger] r.models@[k]) || r.models@[k].prediction.verdict == Verdict::Slow,
    ensures
        uncoloured(stripped_all(report_lines(r, true))) == stripped_all(report_lines(r, false)),
        no_escape(stripped_all(report_lines(r, false))),
{
    let (a, b) = (report_lines(r, true), report_lines(r, false));
    assert(b.len() > 0) by {
        assert(b.len() >= seq![heading_text(r)].len());
    }
    lemma_lines_pair(r, 0);
    lemma_lines_are_plain(r);
    assert forall|i: int| 0 <= i < a.len() implies leaves(stripped(#[trigger] a[i]), stripped(b[i])) by {
        lemma_lines_pair(r, i);
        assert(no_escape(b[i]));
        if a[i] == b[i] {
            lemma_stripped_tidy(b[i]);
            lemma_plain_leaves(stripped(b[i]));
        } else {
            let k = choose|k: int|
                0 <= k < r.models@.len() && a[i] == #[trigger] row_text(r.models@[k], true) && b[i] == row_text(r.models@[k], false);
            let row = r.models@[k];
            lemma_row_leaves(row);
        }
    }
    lemma_all_leave(a, b);
    lemma_all_without_escape(b);
    let (x, y) = (stripped_all(a), stripped_all(b));
    let none = Seq::<char>::empty();
    assert(uncoloured(x + none) == y + uncoloured(none));
    assert(x + none =~= x);
    assert(y + uncoloured(none) =~= y);
}

// ------------------------------------------------------------------ the rows

/// The text holds no `c`.
spec fn free(s: Seq<char>, c: char) -> bool {
    forall|i: int| 0 <= i < s.len() ==> #[trigger] s[i] != c
}

/// A character that no number and no label holds.
spec fn control(c: char) -> bool {
    c == '\n' || c == ESCAPE
}

proof fn lemma_free_sum(a: Seq<char>, b: Seq<char>, c: char)
    requires
        free(a, c),
        free(b, c),
    ensures
        free(a + b, c),
{
    assert forall|i: int| 0 <= i < (a + b).len() implies #[trigger] (a + b)[i] != c by {
        if i < a.len() {
            assert((a + b)[i] == a[i]);
        } else {
            assert((a + b)[i] == b[i - a.len()]);
        }
    }
}

proof fn lemma_padded(s: Seq<char>, w: nat, c: char)
    requires
        free(s, c),
        control(c),
    ensures
        free(left(s, w), c),
        free(right(s, w), c),
{
    let pad = repeated(' ', crate::chars::missing(s.len(), w));
    assert(free(pad, c));
    lemma_free_sum(s, pad, c);
    lemma_free_sum(pad, s, c);
}

proof fn lemma_dec_free(n: nat, q: nat, c: char)
    requires
        control(c),
    ensures
        free(dec(n), c),
        free(dec_places(n, q), c),
{
    lemma_dec_digits(n);
    lemma_dec_places_digits(n, q);
    assert forall|i: int| 0 <= i < dec(n).len() implies #[trigger] dec(n)[i] != c by {
        assert(crate::chars::is_digit(dec(n)[i]));
    }
    assert forall|i: int| 0 <= i < dec_places(n, q).len() implies #[trigger] dec_places(n, q)[i] != c by {
        assert(crate::chars::is_digit(dec_places(n, q)[i]));
    }
}

proof fn lemma_fixed_free(n: nat, places: nat, c: char)
    requires
        control(c),
    ensures
        free(fixed_text(n, places), c),
{
    let p = crate::json::pow10(places);
    lemma_dec_free(n, places, c);
    lemma_dec_free(n / p, places, c);
    lemma_free_sum(dec(n / p), seq!['.'], c);
    lemma_free_sum(dec(n / p) + seq!['.'], dec_places(n, places), c);
}

proof fn lemma_double_free(d: Double, places: nat, c: char)
    requires
        control(c),
    ensures
        free(d.text(places), c),
{
    reveal_strlit("NaN");
    reveal_strlit("inf");
    let n = d.scaled(places);
    lemma_fixed_free(n, places, c);
    let sign = if d.negative() { seq!['-'] } else { Seq::empty() };
    lemma_free_sum(sign, fixed_text(n, places), c);
    lemma_free_sum(sign, "inf"@, c);
}

proof fn lemma_human_free(bytes: nat, c: char)
    requires
        control(c),
    ensures
        free(human_text(bytes), c),
{
    reveal_strlit(" GiB");
    reveal_strlit(" MiB");
    let b = rounded(bytes);
    lemma_fixed_free(nearest(b * 100, pow2(30)), 2, c);
    lemma_fixed_free(nearest(b, pow2(20)), 0, c);
    lemma_free_sum(fixed_text(nearest(b * 100, pow2(30)), 2), " GiB"@, c);
    lemma_free_sum(fixed_text(nearest(b, pow2(20)), 0), " MiB"@, c);
}

proof fn lemma_cells(row: Row, c: char)
    requires
        control(c),
    ensures
        free(speed_text(row.prediction), c),
        free(ctx_text(row.prediction), c),
        free(ttft_text(row.prediction), c),
{
    let p = row.prediction;
    reveal_strlit("-");
    reveal_strlit("K");
    reveal_strlit("s");
    lemma_double_free(p.decode_tok_s.0, 1, c);
    lemma_double_free(p.decode_tok_s.1, 1, c);
    lemma_free_sum(p.decode_tok_s.0.text(1), "-"@, c);
    lemma_free_sum(p.decode_tok_s.0.text(1) + "-"@, p.decode_tok_s.1.text(1), c);
    lemma_dec_free(p.max_context as nat / 1024, 0, c);
    lemma_dec_free(p.max_context as nat, 0, c);
    lemma_free_sum(dec(p.max_context as nat / 1024), "K"@, c);
    if let Some(t) = p.ttft_s {
        lemma_double_free(t, 1, c);
        lemma_double_free(t, 0, c);
        lemma_free_sum(t.text(1), "s"@, c);
        lemma_free_sum(t.text(0), "s"@, c);
    }
}

/// A row holds what its names hold.
proof fn lemma_row_free(row: Row, c: char)
    requires
        control(c),
        free(row.model_id@, c),
        free(row.quant.name@, c),
    ensures
        free(row_text(row, false), c),
{
    let p = row.prediction;
    let m = mark_of(p.verdict);
    reveal_strlit("OK");
    reveal_strlit("ok");
    reveal_strlit("SLOW");
    reveal_strlit("XX");
    reveal_strlit(" ");
    reveal_strlit("  ");
    reveal_strlit("");
    reveal_strlit("% resident");
    reveal_strlit("high");
    reveal_strlit("medium");
    reveal_strlit("low");
    reveal_strlit("prior");
    lemma_cells(row, c);
    lemma_padded(m.0, 4, c);
    lemma_padded(row.model_id@, 28, c);
    lemma_padded(row.quant.name@, 7, c);
    lemma_padded(speed_text(p), 12, c);
    lemma_padded(ctx_text(p), 7, c);
    lemma_padded(ttft_text(p), 6, c);
    lemma_padded(p.confidence.label_text(), 6, c);
    lemma_double_free(p.resident_fraction.in_percent(), 0, c);
    let full = "  "@ + p.resident_fraction.in_percent().text(0);
    lemma_free_sum("  "@, p.resident_fraction.in_percent().text(0), c);
    lemma_free_sum(full, "% resident"@, c);
    let rest = if spills(p.resident_fraction) {
        full + "% resident"@
    } else {
        ""@
    };
    lemma_free_sum("  "@, left(m.0, 4), c);
    let a = "  "@ + left(m.0, 4);
    lemma_free_sum(a, " "@, c);
    lemma_free_sum(a + " "@, left(row.model_id@, 28), c);
    let b = a + " "@ + left(row.model_id@, 28);
    lemma_free_sum(b, " "@, c);
    lemma_free_sum(b + " "@, left(row.quant.name@, 7), c);
    let d = b + " "@ + left(row.quant.name@, 7);
    lemma_free_sum(d, " "@, c);
    lemma_free_sum(d + " "@, right(speed_text(p), 12), c);
    let e = d + " "@ + right(speed_text(p), 12);
    lemma_free_sum(e, " "@, c);
    lemma_free_sum(e + " "@, right(ctx_text(p), 7), c);
    let f = e + " "@ + right(ctx_text(p), 7);
    lemma_free_sum(f, " "@, c);
    lemma_free_sum(f + " "@, right(ttft_text(p), 6), c);
    let g = f + " "@ + right(ttft_text(p), 6);
    lemma_free_sum(g, "  "@, c);
    lemma_free_sum(g + "  "@, left(p.confidence.label_text(), 6), c);
    lemma_free_sum(g + "  "@ + left(p.confidence.label_text(), 6), rest, c);
}

proof fn lemma_cpu_line(r: Report)
    requires
        no_escape(r.cpu.brand@),
    ensures
        no_escape(cpu_line_text(r)),
{
    reveal_strlit("   unified");
    reveal_strlit("");
    let tail = if r.mem.unified { "   unified"@ } else { ""@ };
    reveal_strlit("  ");
    lemma_free_sum("  "@, r.cpu.brand@, ESCAPE);
    let s1 = "  "@ + r.cpu.brand@;
    reveal_strlit("   ");
    lemma_free_sum(s1, "   "@, ESCAPE);
    let s2 = s1 + "   "@;
    lemma_dec_free(r.cpu.p_cores as nat, 0, ESCAPE);
    lemma_free_sum(s2, dec(r.cpu.p_cores as nat), ESCAPE);
    let s3 = s2 + dec(r.cpu.p_cores as nat);
    reveal_strlit("P+");
    lemma_free_sum(s3, "P+"@, ESCAPE);
    let s4 = s3 + "P+"@;
    lemma_dec_free(r.cpu.e_cores as nat, 0, ESCAPE);
    lemma_free_sum(s4, dec(r.cpu.e_cores as nat), ESCAPE);
    let s5 = s4 + dec(r.cpu.e_cores as nat);
    reveal_strlit("E   ");
    lemma_free_sum(s5, "E   "@, ESCAPE);
    let s6 = s5 + "E   "@;
    lemma_human_free(r.mem.total as nat, ESCAPE);
    lemma_free_sum(s6, human_text(r.mem.total as nat), ESCAPE);
    let s7 = s6 + human_text(r.mem.total as nat);
    reveal_strlit(" total / ");
    lemma_free_sum(s7, " total / "@, ESCAPE);
    let s8 = s7 + " total / "@;
    lemma_human_free(r.mem.available as nat, ESCAPE);
    lemma_free_sum(s8, human_text(r.mem.available as nat), ESCAPE);
    let s9 = s8 + human_text(r.mem.available as nat);
    reveal_strlit(" available");
    lemma_free_sum(s9, " available"@, ESCAPE);
    let s10 = s9 + " available"@;
    lemma_free_sum(s10, tail, ESCAPE);
}

proof fn lemma_storage_line(r: Report)
    requires
        no_escape(r.storage.mount@),
        no_escape(r.storage.fstype@),
    ensures
        no_escape(storage_line_text(r)),
{
    reveal_strlit("   [benchmarked against a non-model file on the same volume]");
    reveal_strlit("");
    reveal_strlit("NVMe");
    reveal_strlit("SSD");
    reveal_strlit("rotational");
    reveal_strlit("network");
    reveal_strlit("unknown");
    let tail = if r.storage.bench_file is Some && !r.storage.bench_is_weight {
        "   [benchmarked against a non-model file on the same volume]"@
    } else {
        ""@
    };
    reveal_strlit("  ");
    lemma_free_sum("  "@, r.storage.mount@, ESCAPE);
    let s1 = "  "@ + r.storage.mount@;
    reveal_strlit(" on ");
    lemma_free_sum(s1, " on "@, ESCAPE);
    let s2 = s1 + " on "@;
    lemma_free_sum(s2, r.storage.fstype@, ESCAPE);
    let s3 = s2 + r.storage.fstype@;
    reveal_strlit(" (");
    lemma_free_sum(s3, " ("@, ESCAPE);
    let s4 = s3 + " ("@;
    lemma_free_sum(s4, r.storage.medium.label_text(), ESCAPE);
    let s5 = s4 + r.storage.medium.label_text();
    reveal_strlit(")");
    lemma_free_sum(s5, ")"@, ESCAPE);
    let s6 = s5 + ")"@;
    lemma_free_sum(s6, tail, ESCAPE);
}

proof fn lemma_gpu_line(g: Gpu)
    requires
        no_escape(g.name@),
    ensures
        no_escape(gpu_line_text(g)),
{
    reveal_strlit("  ");
    reveal_strlit("   ");
    reveal_strlit(" x");
    reveal_strlit("");
    reveal_strlit("integrated (shares system memory)");
    reveal_strlit(" VRAM   ~");
    reveal_strlit(" GB/s (looked up, not measured)");
    lemma_dec_free(g.count as nat, 0, ESCAPE);
    lemma_dec_free(g.bw_gbs as nat, 0, ESCAPE);
    lemma_human_free(g.vram_bytes as nat, ESCAPE);
    let many = if g.count > 1 { " x"@ + dec(g.count as nat) } else { ""@ };
    lemma_free_sum(" x"@, dec(g.count as nat), ESCAPE);
    let own = human_text(g.vram_bytes as nat) + " VRAM   ~"@ + dec(g.bw_gbs as nat) + " GB/s (looked up, not measured)"@;
    lemma_free_sum(human_text(g.vram_bytes as nat), " VRAM   ~"@, ESCAPE);
    lemma_free_sum(human_text(g.vram_bytes as nat) + " VRAM   ~"@, dec(g.bw_gbs as nat), ESCAPE);
    lemma_free_sum(
        human_text(g.vram_bytes as nat) + " VRAM   ~"@ + dec(g.bw_gbs as nat),
        " GB/s (looked up, not measured)"@,
        ESCAPE,
    );
    let rest = if g.integrated { "integrated (shares system memory)"@ } else { own };
    lemma_free_sum("  "@, g.name@, ESCAPE);
    lemma_free_sum("  "@ + g.name@, many, ESCAPE);
    lemma_free_sum("  "@ + g.name@ + many, "   "@, ESCAPE);
    lemma_free_sum("  "@ + g.name@ + many + "   "@, rest, ESCAPE);
}

proof fn lemma_curve(v: Seq<ThreadRate>)
    ensures
        no_escape(curve_text(v)),
{
    reveal_strlit("t:");
    reveal_strlit("  ");
    let parts = v.map_values(|t: ThreadRate| curve_point(t));
    assert forall|k: int| 0 <= k < parts.len() implies no_escape(#[trigger] parts[k]) by {
        let t = v[k];
        lemma_dec_free(t.threads as nat, 0, ESCAPE);
        lemma_double_free(t.gbs, 0, ESCAPE);
        lemma_free_sum(dec(t.threads as nat), "t:"@, ESCAPE);
        lemma_free_sum(dec(t.threads as nat) + "t:"@, t.gbs.text(0), ESCAPE);
        assert(parts[k] == curve_point(t));
    }
    lemma_join_no_escape(parts, "  "@);
}

proof fn lemma_ram_line(r: Report)
    ensures
        no_escape(ram_line_text(r)),
{
    lemma_curve(r.ram.by_threads@);
    reveal_strlit("  ram          ");
    lemma_double_free(r.ram.peak_gbs, 0, ESCAPE);
    lemma_free_sum("  ram          "@, r.ram.peak_gbs.text(0), ESCAPE);
    let s1 = "  ram          "@ + r.ram.peak_gbs.text(0);
    reveal_strlit(" GB/s peak @");
    lemma_free_sum(s1, " GB/s peak @"@, ESCAPE);
    let s2 = s1 + " GB/s peak @"@;
    lemma_dec_free(r.ram.peak_threads as nat, 0, ESCAPE);
    lemma_free_sum(s2, dec(r.ram.peak_threads as nat), ESCAPE);
    let s3 = s2 + dec(r.ram.peak_threads as nat);
    reveal_strlit("t   [");
    lemma_free_sum(s3, "t   ["@, ESCAPE);
    let s4 = s3 + "t   ["@;
    lemma_free_sum(s4, curve_text(r.ram.by_threads@), ESCAPE);
    let s5 = s4 + curve_text(r.ram.by_threads@);
    reveal_strlit("]");
    lemma_free_sum(s5, "]"@, ESCAPE);
}

proof fn lemma_compute_line(r: Report)
    ensures
        no_escape(compute_line_text(r)),
{
    reveal_strlit("  compute      ");
    lemma_double_free(r.compute.gflops_nt, 0, ESCAPE);
    lemma_free_sum("  compute      "@, r.compute.gflops_nt.text(0), ESCAPE);
    let s1 = "  compute      "@ + r.compute.gflops_nt.text(0);
    reveal_strlit(" GFLOPS f32 @");
    lemma_free_sum(s1, " GFLOPS f32 @"@, ESCAPE);
    let s2 = s1 + " GFLOPS f32 @"@;
    lemma_dec_free(r.compute.threads as nat, 0, ESCAPE);
    lemma_free_sum(s2, dec(r.compute.threads as nat), ESCAPE);
    let s3 = s2 + dec(r.compute.threads as nat);
    reveal_strlit("t   ");
    lemma_free_sum(s3, "t   "@, ESCAPE);
    let s4 = s3 + "t   "@;
    lemma_double_free(r.compute.int8_gops_nt, 0, ESCAPE);
    lemma_free_sum(s4, r.compute.int8_gops_nt.text(0), ESCAPE);
    let s5 = s4 + r.compute.int8_gops_nt.text(0);
    reveal_strlit(" GOPS int8 (");
    lemma_free_sum(s5, " GOPS int8 ("@, ESCAPE);
    let s6 = s5 + " GOPS int8 ("@;
    lemma_double_free(r.compute.int8_ratio, 2, ESCAPE);
    lemma_free_sum(s6, r.compute.int8_ratio.text(2), ESCAPE);
    let s7 = s6 + r.compute.int8_ratio.text(2);
    reveal_strlit("x)");
    lemma_free_sum(s7, "x)"@, ESCAPE);
}

spec fn disk_line_text_of(d: DiskResult) -> Seq<char> {
    "  disk         "@ + d.rand_128k_qdn_gbs.text(2) + " GB/s random 128K @QD"@ + dec(d.queue_depth as nat) + "   "@ + d.rand_4k_qdn_iops.quotient(
        Double { bits: THOUSAND_BITS },
    ).text(0) + "K IOPS 4K"@ + (if d.uncached { ""@ } else { "   [CACHED - inflated]"@ })
}

proof fn lemma_measured_disk(d: DiskResult)
    ensures
        no_escape(disk_line_text_of(d)),
{
    reveal_strlit("");
    reveal_strlit("   [CACHED - inflated]");
    let tail = if d.uncached { ""@ } else { "   [CACHED - inflated]"@ };
    reveal_strlit("  disk         ");
    lemma_double_free(d.rand_128k_qdn_gbs, 2, ESCAPE);
    lemma_free_sum("  disk         "@, d.rand_128k_qdn_gbs.text(2), ESCAPE);
    let s1 = "  disk         "@ + d.rand_128k_qdn_gbs.text(2);
    reveal_strlit(" GB/s random 128K @QD");
    lemma_free_sum(s1, " GB/s random 128K @QD"@, ESCAPE);
    let s2 = s1 + " GB/s random 128K @QD"@;
    lemma_dec_free(d.queue_depth as nat, 0, ESCAPE);
    lemma_free_sum(s2, dec(d.queue_depth as nat), ESCAPE);
    let s3 = s2 + dec(d.queue_depth as nat);
    reveal_strlit("   ");
    lemma_free_sum(s3, "   "@, ESCAPE);
    let s4 = s3 + "   "@;
    lemma_double_free(d.rand_4k_qdn_iops.quotient(Double { bits: THOUSAND_BITS }), 0, ESCAPE);
    lemma_free_sum(s4, d.rand_4k_qdn_iops.quotient(Double { bits: THOUSAND_BITS }).text(0), ESCAPE);
    let s5 = s4 + d.rand_4k_qdn_iops.quotient(Double { bits: THOUSAND_BITS }).text(0);
    reveal_strlit("K IOPS 4K");
    lemma_free_sum(s5, "K IOPS 4K"@, ESCAPE);
    let s6 = s5 + "K IOPS 4K"@;
    lemma_free_sum(s6, tail, ESCAPE);
}

proof fn lemma_disk_line(r: Report)
    ensures
        no_escape(disk_line_text(r)),
{
    reveal_strlit("  disk         MEASUREMENT FAILED - streaming predictions unreliable");
    if let Some(d) = r.disk {
        lemma_measured_disk(d);
    }
}

proof fn lemma_budget_line(r: Report)
    ensures
        no_escape(budget_line_text(r)),
{
    reveal_strlit("  budget       ");
    lemma_human_free(r.budget_idle as nat, ESCAPE);
    lemma_free_sum("  budget       "@, human_text(r.budget_idle as nat), ESCAPE);
    let s1 = "  budget       "@ + human_text(r.budget_idle as nat);
    reveal_strlit(" on an idle machine   (");
    lemma_free_sum(s1, " on an idle machine   ("@, ESCAPE);
    let s2 = s1 + " on an idle machine   ("@;
    lemma_human_free(r.budget_now as nat, ESCAPE);
    lemma_free_sum(s2, human_text(r.budget_now as nat), ESCAPE);
    let s3 = s2 + human_text(r.budget_now as nat);
    reveal_strlit(" free right now)");
    lemma_free_sum(s3, " free right now)"@, ESCAPE);
}

proof fn lemma_bandwidth(r: Report)
    ensures
        no_escape(bandwidth_text(r)),
{
    reveal_strlit(" GB/s VRAM + ");
    reveal_strlit(" GB/s RAM");
    reveal_strlit(" GB/s");
    lemma_double_free(r.vram_bw_gbs, 0, ESCAPE);
    lemma_double_free(r.ram_bw_gbs, 0, ESCAPE);
    lemma_free_sum(r.vram_bw_gbs.text(0), " GB/s VRAM + "@, ESCAPE);
    lemma_free_sum(r.vram_bw_gbs.text(0) + " GB/s VRAM + "@, r.ram_bw_gbs.text(0), ESCAPE);
    lemma_free_sum(r.vram_bw_gbs.text(0) + " GB/s VRAM + "@ + r.ram_bw_gbs.text(0), " GB/s RAM"@, ESCAPE);
    lemma_free_sum(r.ram_bw_gbs.text(0), " GB/s"@, ESCAPE);
}

proof fn lemma_heading(r: Report)
    ensures
        no_escape(heading_text(r)),
{
    reveal_strlit("CPU");
    reveal_strlit("Metal");
    reveal_strlit("discrete GPU");
    reveal_strlit("F16");
    reveal_strlit("Q8");
    reveal_strlit("Q4");
    lemma_bandwidth(r);
    reveal_strlit("\n== predictions ==  (");
    lemma_free_sum("\n== predictions ==  ("@, backend_label_text(r.backend), ESCAPE);
    let s1 = "\n== predictions ==  ("@ + backend_label_text(r.backend);
    reveal_strlit(" backend, ");
    lemma_free_sum(s1, " backend, "@, ESCAPE);
    let s2 = s1 + " backend, "@;
    lemma_free_sum(s2, bandwidth_text(r), ESCAPE);
    let s3 = s2 + bandwidth_text(r);
    reveal_strlit(", KV at ");
    lemma_free_sum(s3, ", KV at "@, ESCAPE);
    let s4 = s3 + ", KV at "@;
    lemma_free_sum(s4, kv_label_text(r.assumptions.kv_precision), ESCAPE);
    let s5 = s4 + kv_label_text(r.assumptions.kv_precision);
    reveal_strlit(", ");
    lemma_free_sum(s5, ", "@, ESCAPE);
    let s6 = s5 + ", "@;
    lemma_dec_free(r.assumptions.prompt_tokens as nat, 0, ESCAPE);
    lemma_free_sum(s6, dec(r.assumptions.prompt_tokens as nat), ESCAPE);
    let s7 = s6 + dec(r.assumptions.prompt_tokens as nat);
    reveal_strlit("-token prompt)");
    lemma_free_sum(s7, "-token prompt)"@, ESCAPE);
}

spec fn all_plain(l: Seq<Seq<char>>) -> bool {
    forall|i: int| 0 <= i < l.len() ==> no_escape(#[trigger] l[i])
}

proof fn lemma_plain_lines_sum(a: Seq<Seq<char>>, b: Seq<Seq<char>>)
    requires
        all_plain(a),
        all_plain(b),
    ensures
        all_plain(a + b),
{
    assert forall|i: int| 0 <= i < (a + b).len() implies no_escape(#[trigger] (a + b)[i]) by {
        if i < a.len() {
            assert((a + b)[i] == a[i]);
        } else {
            assert((a + b)[i] == b[i - a.len()]);
        }
    }
}

proof fn lemma_hardware_plain(r: Report)
    requires
        plain_texts(r),
    ensures
        all_plain(hardware_lines(r)),
{
    reveal_strlit("== hardware ==");
    lemma_cpu_line(r);
    lemma_storage_line(r);
    let cards = r.gpus@.map_values(|g: Gpu| gpu_line_text(g));
    assert forall|i: int| 0 <= i < cards.len() implies no_escape(#[trigger] cards[i]) by {
        assert(no_escape(r.gpus@[i].name@));
        lemma_gpu_line(r.gpus@[i]);
    }
    assert(all_plain(seq!["== hardware =="@, cpu_line_text(r), storage_line_text(r)]));
    lemma_plain_lines_sum(seq!["== hardware =="@, cpu_line_text(r), storage_line_text(r)], cards);
}

proof fn lemma_measured_plain(r: Report)
    ensures
        all_plain(measured_lines(r)),
{
    reveal_strlit("\n== measured ==");
    lemma_ram_line(r);
    lemma_compute_line(r);
    lemma_disk_line(r);
    lemma_budget_line(r);
}

proof fn lemma_notes_plain(r: Report)
    ensures
        all_plain(note_lines(r)),
{
    reveal_strlit("  VRAM bandwidth is a table lookup, not a measurement - confidence is capped at 'low'");
    reveal_strlit("  a GPU was found but reports no shader cores (a VM's paravirtual\n  adapter), so this predicts CPU decode rather than Metal");
    reveal_strlit("  no GPU could be verified, so this predicts CPU decode rather than\n  Metal - run `zc doctor` to see what was probed");
    reveal_strlit("  assumes an otherwise-idle machine");
    reveal_strlit("  no calibration data yet - ranges are wide priors. Run `zc verify`.");
}

proof fn lemma_table_plain(r: Report)
    requires
        plain_texts(r),
    ensures
        all_plain(table_lines(r, false)),
{
    let rows = r.models@.map_values(|row: Row| row_text(row, false));
    assert forall|i: int| 0 <= i < rows.len() implies no_escape(#[trigger] rows[i]) by {
        assert(no_escape(r.models@[i].model_id@));
        lemma_row_free(r.models@[i], ESCAPE);
    }
    let head = crate::report::text::table_row(left(""@, 4), "model"@, "quant"@, "decode tok/s"@, "max ctx"@, "TTFT"@, "conf"@, ""@);
    lemma_table_head();
    assert(all_plain(seq![head]));
    lemma_plain_lines_sum(seq![head], rows);
}

proof fn lemma_table_head()
    ensures
        no_escape(crate::report::text::table_row(left(""@, 4), "model"@, "quant"@, "decode tok/s"@, "max ctx"@, "TTFT"@, "conf"@, ""@)),
{
    reveal_strlit("");
    reveal_strlit("model");
    reveal_strlit("quant");
    reveal_strlit("decode tok/s");
    reveal_strlit("max ctx");
    reveal_strlit("TTFT");
    reveal_strlit("conf");
    lemma_padded(""@, 4, ESCAPE);
    lemma_padded("model"@, 28, ESCAPE);
    lemma_padded("quant"@, 7, ESCAPE);
    lemma_padded("decode tok/s"@, 12, ESCAPE);
    lemma_padded("max ctx"@, 7, ESCAPE);
    lemma_padded("TTFT"@, 6, ESCAPE);
    lemma_padded("conf"@, 6, ESCAPE);
    reveal_strlit("  ");
    lemma_free_sum("  "@, left(""@, 4), ESCAPE);
    let s1 = "  "@ + left(""@, 4);
    reveal_strlit(" ");
    lemma_free_sum(s1, " "@, ESCAPE);
    let s2 = s1 + " "@;
    lemma_free_sum(s2, left("model"@, 28), ESCAPE);
    let s3 = s2 + left("model"@, 28);
    reveal_strlit(" ");
    lemma_free_sum(s3, " "@, ESCAPE);
    let s4 = s3 + " "@;
    lemma_free_sum(s4, left("quant"@, 7), ESCAPE);
    let s5 = s4 + left("quant"@, 7);
    reveal_strlit(" ");
    lemma_free_sum(s5, " "@, ESCAPE);
    let s6 = s5 + " "@;
    lemma_free_sum(s6, right("decode tok/s"@, 12), ESCAPE);
    let s7 = s6 + right("decode tok/s"@, 12);
    reveal_strlit(" ");
    lemma_free_sum(s7, " "@, ESCAPE);
    let s8 = s7 + " "@;
    lemma_free_sum(s8, right("max ctx"@, 7), ESCAPE);
    let s9 = s8 + right("max ctx"@, 7);
    reveal_strlit(" ");
    lemma_free_sum(s9, " "@, ESCAPE);
    let s10 = s9 + " "@;
    lemma_free_sum(s10, right("TTFT"@, 6), ESCAPE);
    let s11 = s10 + right("TTFT"@, 6);
    reveal_strlit("  ");
    lemma_free_sum(s11, "  "@, ESCAPE);
    let s12 = s11 + "  "@;
    lemma_free_sum(s12, left("conf"@, 6), ESCAPE);
    let s13 = s12 + left("conf"@, 6);
    reveal_strlit("");
    lemma_free_sum(s13, ""@, ESCAPE);
}

proof fn lemma_closing_plain(r: Report)
    ensures
        all_plain(closing_lines(r)),
{
    reveal_strlit("\n  TTFT shown as '-': prefill speed cannot be derived from a CPU benchmark");
    reveal_strlit("  (real prefill runs on the GPU or via int8 kernels). Run `zc verify` to measure it.");
    reveal_strlit("\n  showing ");
    reveal_strlit(" of ");
    reveal_strlit(" - ranked by verdict, then speed, then context (--all for every quant)");
    let (n, t) = (dec(r.models@.len()), dec(r.assumptions.total_rows as nat));
    lemma_dec_free(r.models@.len(), 0, ESCAPE);
    lemma_dec_free(r.assumptions.total_rows as nat, 0, ESCAPE);
    lemma_free_sum("\n  showing "@, n, ESCAPE);
    lemma_free_sum("\n  showing "@ + n, " of "@, ESCAPE);
    lemma_free_sum("\n  showing "@ + n + " of "@, t, ESCAPE);
    lemma_free_sum(
        "\n  showing "@ + n + " of "@ + t,
        " - ranked by verdict, then speed, then context (--all for every quant)"@,
        ESCAPE,
    );
}

proof fn lemma_hazard_plain(h: HazardView)
    requires
        plain_hazard(h),
    ensures
        no_escape(hazard_text(h)),
{
    match h {
        HazardView::CloudSync(p) => {
            reveal_strlit("model directory is synced by ");
            reveal_strlit(" - files may be stubs that re-download on read");
            lemma_free_sum("model directory is synced by "@, p, ESCAPE);
            lemma_free_sum("model directory is synced by "@ + p, " - files may be stubs that re-download on read"@, ESCAPE);
        },
        HazardView::NetworkMount(f) => {
            reveal_strlit("model directory is a network mount (");
            reveal_strlit(") - bandwidth is the network, not the disk");
            lemma_free_sum("model directory is a network mount ("@, f, ESCAPE);
            lemma_free_sum("model directory is a network mount ("@ + f, ") - bandwidth is the network, not the disk"@, ESCAPE);
        },
        HazardView::Removable => {
            reveal_strlit("model directory is on removable storage - often far slower than internal");
        },
        HazardView::Rotational => {
            reveal_strlit("model directory is on a spinning disk - random reads collapse to ~1% of an SSD");
        },
        HazardView::LowSpace(b) => {
            reveal_strlit("only ");
            reveal_strlit(" free on the model volume");
            lemma_human_free(b, ESCAPE);
            lemma_free_sum("only "@, human_text(b), ESCAPE);
            lemma_free_sum("only "@ + human_text(b), " free on the model volume"@, ESCAPE);
        },
    }
}

proof fn lemma_warnings_plain(r: Report)
    requires
        plain_texts(r),
    ensures
        all_plain(warning_lines(r)),
{
    reveal_strlit("\n  !  ");
    let a = r.storage.hazards@.map_values(|h: Hazard| "\n  !  "@ + hazard_text(h@));
    assert forall|i: int| 0 <= i < a.len() implies no_escape(#[trigger] a[i]) by {
        let h = r.storage.hazards@[i];
        assert(plain_hazard(h@));
        lemma_hazard_plain(h@);
        lemma_free_sum("\n  !  "@, hazard_text(h@), ESCAPE);
        assert(a[i] == "\n  !  "@ + hazard_text(h@));
    }
    let b = match r.env.warning {
        Some(w) => seq!["\n  !  "@ + w@],
        None => Seq::empty(),
    };
    if let Some(w) = r.env.warning {
        lemma_free_sum("\n  !  "@, w@, ESCAPE);
    }
    assert(all_plain(b));
    lemma_plain_lines_sum(a, b);
}

proof fn lemma_lines_are_plain(r: Report)
    requires
        plain_texts(r),
    ensures
        all_plain(report_lines(r, false)),
{
    lemma_hardware_plain(r);
    lemma_measured_plain(r);
    lemma_heading(r);
    lemma_notes_plain(r);
    lemma_table_plain(r);
    lemma_closing_plain(r);
    lemma_warnings_plain(r);
    let (a, b, c, d, e, f, g) = (
        hardware_lines(r),
        measured_lines(r),
        seq![heading_text(r)],
        note_lines(r),
        table_lines(r, false),
        closing_lines(r),
        warning_lines(r),
    );
    lemma_plain_lines_sum(a, b);
    lemma_plain_lines_sum(a + b, c);
    lemma_plain_lines_sum(a + b + c, d);
    lemma_plain_lines_sum(a + b + c + d, e);
    lemma_plain_lines_sum(a + b + c + d + e, f);
    lemma_plain_lines_sum(a + b + c + d + e + f, g);
}

/// What cannot run has no speed, and what was not measured no wait: a dash
/// stands for either.
pub proof fn a_dash_stands_for_what_is_unknown(row: Row)
    ensures
        row.prediction.verdict == Verdict::WontFit ==> speed_text(row.prediction) == "-"@,
        row.prediction.ttft_s is None ==> ttft_text(row.prediction) == "-"@,
{
}

// ------------------------------------------------------------- the redaction

proof fn lemma_found_first(s: Seq<char>, p: Seq<char>, from: int, j: int)
    requires
        0 <= from <= j,
        occurs_at(s, p, j),
    ensures
        find(s, p, from) matches Some(i) && from <= i <= j && occurs_at(s, p, i),
    decreases j - from,
{
    if !occurs_at(s, p, from) {
        lemma_found_first(s, p, from + 1, j);
    }
}

/// Nothing is left of what was replaced by something that it does not hold.
proof fn lemma_replaced_is_gone(s: Seq<char>, p: Seq<char>, c: char, j: int)
    requires
        p.len() > 0,
        !p.contains(c),
    ensures
        !occurs_at(replaced(s, p, seq![c]), p, j),
    decreases s.len(),
{
    let r = replaced(s, p, seq![c]);
    if occurs_at(r, p, j) {
        match find(s, p, 0) {
            Some(i) => {
                lemma_find_some(s, p, 0);
                let rest = s.subrange(i + p.len(), s.len() as int);
                let tail = replaced(rest, p, seq![c]);
                assert(r == s.subrange(0, i) + seq![c] + tail);
                if j + p.len() <= i {
                    assert(s.subrange(j, j + p.len()) =~= r.subrange(j, j + p.len()));
                    lemma_found_first(s, p, 0, j);
                } else if j <= i {
                    assert(r.subrange(j, j + p.len())[i - j] == r[i]);
                    assert(r[i] == c);
                    assert(p[i - j] == c);
                } else {
                    let k = j - i - 1;
                    assert(tail.subrange(k, k + p.len()) =~= r.subrange(j, j + p.len()));
                    lemma_replaced_is_gone(rest, p, c, k);
                }
            },
            None => {
                lemma_found_first(s, p, 0, j);
            },
        }
    }
}

proof fn lemma_find_some(s: Seq<char>, p: Seq<char>, from: int)
    requires
        from >= 0,
    ensures
        find(s, p, from) matches Some(i) ==> from <= i && occurs_at(s, p, i),
    decreases s.len() + 1 - from,
{
    if from + p.len() <= s.len() && !occurs_at(s, p, from) {
        lemma_find_some(s, p, from + 1);
    }
}

/// A home directory does not occur in a text it was taken out of. One that is
/// empty or the root is no home, and one with a tilde in it could come back.
pub proof fn the_home_directory_is_gone(s: Seq<char>, home: Seq<char>)
    requires
        home.len() > 0,
        home != "/"@,
        !home.contains('~'),
    ensures
        !contains(redacted(s, Some(home)), home),
{
    reveal_strlit("~");
    assert("~"@ =~= seq!['~']);
    assert forall|j: int| !#[trigger] occurs_at(redacted(s, Some(home)), home, j) by {
        lemma_replaced_is_gone(s, home, '~', j);
    }
}

// -------------------------------------------------------------- the wrapped text

/// A word: something, and no white space.
spec fn is_word(w: Seq<char>) -> bool {
    w.len() > 0 && forall|i: int| 0 <= i < w.len() ==> !is_space(#[trigger] w[i])
}

proof fn lemma_word_end_at(s: Seq<char>, from: int, k: int)
    requires
        0 <= from <= k <= s.len(),
        forall|i: int| from <= i < k ==> !is_space(#[trigger] s[i]),
        k < s.len() ==> is_space(s[k]),
    ensures
        word_end(s, from) == k,
    decreases k - from,
{
    if from < k {
        lemma_word_end_at(s, from + 1, k);
    }
}

proof fn lemma_word_end_is(s: Seq<char>, from: int)
    requires
        0 <= from <= s.len(),
    ensures
        from <= word_end(s, from) <= s.len(),
        forall|i: int| from <= i < word_end(s, from) ==> !is_space(#[trigger] s[i]),
        word_end(s, from) < s.len() ==> is_space(s[word_end(s, from)]),
    decreases s.len() - from,
{
    if from < s.len() && !is_space(s[from]) {
        lemma_word_end_is(s, from + 1);
    }
}

proof fn lemma_words_are_words(s: Seq<char>)
    ensures
        forall|i: int| 0 <= i < words(s).len() ==> is_word(#[trigger] words(s)[i]),
    decreases s.len(),
{
    if s.len() > 0 {
        if is_space(s[0]) {
            lemma_words_are_words(s.subrange(1, s.len() as int));
            assert(words(s) == words(s.subrange(1, s.len() as int)));
        } else {
            let k = word_end(s, 1);
            lemma_word_end_is(s, 1);
            let rest = words(s.subrange(k, s.len() as int));
            lemma_words_are_words(s.subrange(k, s.len() as int));
            let first = s.subrange(0, k);
            assert(words(s) == seq![first] + rest);
            assert forall|i: int| 0 <= i < words(s).len() implies is_word(#[trigger] words(s)[i]) by {
                if i > 0 {
                    assert(words(s)[i] == rest[i - 1]);
                } else {
                    assert forall|n: int| 0 <= n < first.len() implies !is_space(#[trigger] first[n]) by {
                        assert(first[n] == s[n]);
                    }
                }
            }
        }
    }
}

/// The words of a text and one more behind a space.
proof fn lemma_words_grow(s: Seq<char>, w: Seq<char>)
    requires
        is_word(w),
    ensures
        words(s + seq![' '] + w) == words(s).push(w),
    decreases s.len(),
{
    let t = s + seq![' '] + w;
    if s.len() == 0 {
        assert(t.subrange(1, t.len() as int) =~= w);
        lemma_word_alone(w);
        assert(words(s).push(w) =~= seq![w]);
    } else if is_space(s[0]) {
        let rest = s.subrange(1, s.len() as int);
        assert(t.subrange(1, t.len() as int) =~= rest + seq![' '] + w);
        lemma_words_grow(rest, w);
    } else {
        let k = word_end(s, 1);
        lemma_word_end_is(s, 1);
        assert forall|i: int| 1 <= i < k implies !is_space(#[trigger] t[i]) by {
            assert(t[i] == s[i]);
        }
        assert(k < s.len() ==> t[k] == s[k]);
        assert(k == s.len() ==> t[k] == ' ');
        lemma_word_end_at(t, 1, k);
        let rest = s.subrange(k, s.len() as int);
        assert(t.subrange(k, t.len() as int) =~= rest + seq![' '] + w);
        lemma_words_grow(rest, w);
        assert(t.subrange(0, k) =~= s.subrange(0, k));
        assert(seq![s.subrange(0, k)] + words(rest).push(w) =~= (seq![s.subrange(0, k)] + words(rest)).push(w));
    }
}

proof fn lemma_word_alone(w: Seq<char>)
    requires
        is_word(w),
    ensures
        words(w) == seq![w],
{
    assert(!is_space(w[0]));
    lemma_word_end_at(w, 1, w.len() as int);
    assert(w.subrange(0, w.len() as int) =~= w);
    let none = w.subrange(w.len() as int, w.len() as int);
    assert(words(none) =~= Seq::<Seq<char>>::empty());
    assert(words(w) =~= seq![w]);
}

proof fn lemma_indent(n: nat, l: Seq<char>)
    ensures
        words(repeated(' ', n) + l) == words(l),
    decreases n,
{
    let s = repeated(' ', n) + l;
    if n == 0 {
        assert(s =~= l);
    } else {
        let m = (n - 1) as nat;
        lemma_indent(m, l);
        assert(s[0] == ' ');
        assert(s.subrange(1, s.len() as int) =~= repeated(' ', m) + l);
    }
}

/// The words of the lines, one after the other.
pub open spec fn words_of_lines(l: Seq<Seq<char>>) -> Seq<Seq<char>>
    decreases l.len(),
{
    if l.len() == 0 {
        Seq::empty()
    } else {
        words_of_lines(l.drop_last()) + words(l.last())
    }
}

proof fn lemma_filled_words(w: Seq<Seq<char>>, room: nat)
    requires
        forall|i: int| 0 <= i < w.len() ==> is_word(#[trigger] w[i]),
    ensures
        words_of_lines(filled(w, room).done) + words(filled(w, room).line) == w,
    decreases w.len(),
{
    if w.len() == 0 {
        assert(words_of_lines(Seq::<Seq<char>>::empty()) + words(Seq::<char>::empty()) =~= w);
    } else {
        let rest = w.drop_last();
        assert forall|i: int| 0 <= i < rest.len() implies is_word(#[trigger] rest[i]) by {
            assert(rest[i] == w[i]);
        }
        lemma_filled_words(rest, room);
        let f = filled(rest, room);
        let last = w[w.len() - 1];
        assert(is_word(last));
        lemma_word_alone(last);
        assert(w =~= rest.push(last));
        let before = words_of_lines(f.done);
        if f.line.len() == 0 {
            assert(words(f.line) =~= Seq::<Seq<char>>::empty());
            assert(words_of_lines(f.done) + seq![last] =~= w);
        } else if f.line.len() + 1 + last.len() <= room {
            lemma_words_grow(f.line, last);
            assert(before + words(f.line).push(last) =~= (before + words(f.line)).push(last));
        } else {
            let d = f.done.push(f.line);
            assert(d.drop_last() =~= f.done);
            assert(words_of_lines(d) == words_of_lines(f.done) + words(f.line));
            assert(words_of_lines(d) + seq![last] =~= w);
        }
    }
}

proof fn lemma_indented_words(l: Seq<Seq<char>>, indent: nat)
    ensures
        words_of_lines(l.map_values(|x: Seq<char>| repeated(' ', indent) + x)) == words_of_lines(l),
    decreases l.len(),
{
    let m = l.map_values(|x: Seq<char>| repeated(' ', indent) + x);
    if l.len() > 0 {
        assert(m.drop_last() =~= l.drop_last().map_values(|x: Seq<char>| repeated(' ', indent) + x));
        lemma_indented_words(l.drop_last(), indent);
        lemma_indent(indent, l.last());
    }
}

/// Wrapping loses no word and moves none: the words of the lines are those of
/// the text, in order, whatever the width and the indent.
pub proof fn wrapping_keeps_the_words(text: Seq<char>, width: nat, indent: nat)
    ensures
        words_of_lines(wrapped(text, width, indent)) == words(text),
{
    let w = words(text);
    let room = room_for(width, indent);
    lemma_words_are_words(text);
    lemma_filled_words(w, room);
    let f = filled(w, room);
    let l = filled_lines(w, room);
    if f.line.len() == 0 {
        assert(words(f.line) =~= Seq::<Seq<char>>::empty());
        assert(words_of_lines(l) =~= w);
    } else {
        assert(l.drop_last() =~= f.done);
    }
    lemma_indented_words(l, indent);
}

} // verus!
