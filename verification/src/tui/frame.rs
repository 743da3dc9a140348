//! What is shown, as the exact lines to paint.
//!
//! A frame is exactly as many lines as the window has, each at most as wide.
//! Both are load-bearing: a line too wide makes the terminal wrap and pushes
//! the footer off the screen; a line too few leaves the previous screen
//! showing underneath.

use vstd::prelude::*;
use vstd::view::View as _;
use crate::chars::{chars_of, concat2, concat3, copy, dec, decimal, left, pad_left, pad_right, repeated, right, string_of, texts, trim_end, trimmed_end};
use crate::double::{fixed_decimal, fixed_text, nearest, nearest_shifted, pow2, round_to_double, rounded, Double, ONE_BITS};
use crate::predict::Verdict;
use crate::report::charset::Charset;
use crate::report::{
    backend_tag, backend_tag_text, clamp_model_width, clamped_width, ctx_text, fmt_ctx, fmt_speed, fmt_ttft, speed_text, spills, ttft_text,
    valid_positions, Report, Row, RESIDENT_BITS,
};
use crate::tui::state::{State, StateView};

verus! {

/// One row, already formatted by the formatters every surface shares.
pub struct RowView {
    pub id: String,
    pub quant: String,
    pub speed: String,
    pub ctx: String,
    pub ttft: String,
    pub conf: String,
    /// 1 means every weight is in memory.
    pub resident: Double,
    pub wont_fit: bool,
    pub weight_bytes: u64,
    pub eta: Double,
    pub kv_bytes_per_token: u64,
    pub max_context: u32,
}

/// What is shown of a report: display-only, and no input of a prediction.
pub struct View {
    pub version: String,
    pub cpu: String,
    pub backend: String,
    pub mem_total: u64,
    pub ram_bw_gbs: Double,
    pub disk_gbs: Double,
    pub gflops: Double,
    pub kv: String,
    pub prompt_tokens: u32,
    pub total_rows: usize,
    pub rows: Vec<RowView>,
}

/// `v` shows the prediction `row`.
pub open spec fn shows_row(v: RowView, row: Row) -> bool {
    let p = row.prediction;
    &&& v.id@ == row.model_id@
    &&& v.quant@ == row.quant.name@
    &&& v.speed@ == speed_text(p)
    &&& v.ctx@ == ctx_text(p)
    &&& v.ttft@ == ttft_text(p)
    &&& v.conf@ == p.confidence.label_text()
    &&& v.resident == p.resident_fraction
    &&& v.wont_fit == (p.verdict == Verdict::WontFit)
    &&& v.weight_bytes == row.quant.bytes
    &&& v.eta == p.assumed_eta
    &&& v.kv_bytes_per_token == p.kv_bytes_per_token
    &&& v.max_context == p.max_context
}

fn row_view(row: &Row) -> (v: RowView)
    ensures
        shows_row(v, *row),
{
    let p = &row.prediction;
    RowView {
        id: copy(row.model_id.as_str()),
        quant: copy(row.quant.name.as_str()),
        speed: fmt_speed(p),
        ctx: fmt_ctx(p),
        ttft: fmt_ttft(p),
        conf: copy(p.confidence.label()),
        resident: p.resident_fraction,
        wont_fit: match p.verdict {
            Verdict::WontFit => true,
            _ => false,
        },
        weight_bytes: row.quant.bytes,
        eta: p.assumed_eta,
        kv_bytes_per_token: p.kv_bytes_per_token,
        max_context: p.max_context,
    }
}

impl View {
    pub fn from_report(r: &Report, version: &str) -> (v: View)
        ensures
            v.version@ == version@,
            v.cpu@ == r.cpu.brand@,
            v.backend@ == backend_tag_text(r.backend),
            v.mem_total == r.mem.total,
            v.ram_bw_gbs == r.ram_bw_gbs,
            v.disk_gbs == r.disk_gbs,
            v.gflops == r.compute.gflops_nt,
            v.kv@ == r.assumptions.kv_precision.tag_text(),
            v.prompt_tokens == r.assumptions.prompt_tokens,
            v.total_rows == r.assumptions.total_rows,
            v.rows@.len() == r.models@.len(),
            forall|i: int| 0 <= i < v.rows@.len() ==> shows_row(#[trigger] v.rows@[i], r.models@[i]),
    {
        let mut rows: Vec<RowView> = Vec::new();
        let mut i: usize = 0;
        while i < r.models.len()
            invariant
                i <= r.models@.len(),
                rows@.len() == i,
                forall|k: int| 0 <= k < rows@.len() ==> shows_row(#[trigger] rows@[k], r.models@[k]),
            decreases r.models@.len() - i,
        {
            rows.push(row_view(&r.models[i]));
            i += 1;
        }
        View {
            version: copy(version),
            cpu: copy(r.cpu.brand.as_str()),
            backend: copy(backend_tag(r.backend)),
            mem_total: r.mem.total,
            ram_bw_gbs: r.ram_bw_gbs,
            disk_gbs: r.disk_gbs,
            gflops: r.compute.gflops_nt,
            kv: copy(r.assumptions.kv_precision.tag()),
            prompt_tokens: r.assumptions.prompt_tokens,
            total_rows: r.assumptions.total_rows,
            rows,
        }
    }
}

// --------------------------------------------------------------------- lines

/// A line cut to the width, without the padding at its end.
pub open spec fn fitted(line: Seq<char>, w: nat) -> Seq<char> {
    if line.len() > w {
        trim_end(line.subrange(0, w as int))
    } else {
        trim_end(line)
    }
}

/// Cut a line to the width, and trim the padding a column leaves.
pub fn fit(line: &str, w: usize) -> (r: String)
    ensures
        r@ == fitted(line@, w as nat),
{
    let v = chars_of(line);
    if v.len() > w {
        let short = string_of(&v, 0, w);
        trimmed_end(short.as_str())
    } else {
        trimmed_end(line)
    }
}

/// A trimmed text is a start of the text and ends in no white space.
pub proof fn lemma_trim_end(s: Seq<char>)
    ensures
        trim_end(s).len() <= s.len(),
        trim_end(s).len() > 0 ==> !crate::chars::is_space(trim_end(s).last()),
    decreases s.len(),
{
    if s.len() > 0 && crate::chars::is_space(s.last()) {
        lemma_trim_end(s.drop_last());
    }
}

/// A line that may be painted in a window `w` wide.
pub open spec fn paintable(l: Seq<char>, w: nat) -> bool {
    l.len() <= w && (l.len() > 0 ==> !crate::chars::is_space(l.last()))
}

proof fn lemma_fitted(line: Seq<char>, w: nat)
    ensures
        paintable(fitted(line, w), w),
{
    lemma_trim_end(line);
    if line.len() > w {
        lemma_trim_end(line.subrange(0, w as int));
    }
}

/// Below this there is no honest way to show a table.
pub const MIN_W: usize = 40;

pub const MIN_H: usize = 10;

/// Lines above the list: two header lines, a rule, and the column header.
pub const TOP: usize = 4;

/// Lines below the list: a rule and the hint line.
pub const BOTTOM: usize = 2;

pub open spec fn body_rows(h: nat) -> nat {
    if h >= 6 {
        (h - 6) as nat
    } else {
        0
    }
}

/// Rows the list can show in a window `h` tall, so that the event loop can
/// scroll by exactly one screen.
pub fn body_height(h: usize) -> (r: usize)
    ensures
        r as nat == body_rows(h as nat),
{
    h.saturating_sub(TOP + BOTTOM)
}

/// The first `n` of the lines, with empty ones where there are too few.
pub open spec fn resized(lines: Seq<Seq<char>>, n: nat) -> Seq<Seq<char>> {
    Seq::new(n, |i: int| if i < lines.len() { lines[i] } else { Seq::empty() })
}

fn pad_to(out: &mut Vec<String>, h: usize)
    ensures
        texts(final(out)@) == resized(texts(old(out)@), h as nat),
{
    let ghost start = texts(out@);
    assert(start.len() == out@.len());
    while out.len() < h
        invariant
            texts(out@).len() == out@.len(),
            start.len() <= out@.len(),
            start.len() < out@.len() ==> out@.len() <= h,
            texts(out@) =~= resized(start, out@.len()),
        decreases h - out@.len(),
    {
        let ghost prev = out@;
        out.push(String::new());
        assert(texts(out@) =~= texts(prev).push(Seq::empty()));
    }
    let ghost long = out@;
    out.truncate(h);
    assert(texts(out@) =~= texts(long).subrange(0, h as int));
    assert(texts(out@) =~= resized(start, h as nat));
}

// -------------------------------------------------------------------- layout

/// Which optional columns survive at this width.
#[derive(Debug, Clone, Copy, PartialEq, Eq, Structural)]
pub struct Cols {
    pub ctx: bool,
    pub ttft: bool,
    pub conf: bool,
    pub resid: bool,
}

/// Fixed cost of a row: marker, dot, their spaces, quant and speed.
pub const ROW_FIXED: usize = 24;

impl Cols {
    pub open spec fn columns(self) -> nat {
        (if self.ctx { 6nat } else { 0 }) + (if self.ttft { 6nat } else { 0 }) + (if self.conf { 7nat } else { 0 }) + (
        if self.resid { 5nat } else { 0 })
    }

    /// The columns of `self` are among those of `other`.
    pub open spec fn within(self, other: Cols) -> bool {
        (self.ctx ==> other.ctx) && (self.ttft ==> other.ttft) && (self.conf ==> other.conf) && (self.resid ==> other.resid)
    }

    fn width(&self) -> (r: usize)
        ensures
            r as nat == self.columns(),
            r <= 24,
    {
        (if self.ctx { 6usize } else { 0 }) + (if self.ttft { 6usize } else { 0 }) + (if self.conf { 7usize } else { 0 }) + (
        if self.resid { 5usize } else { 0 })
    }
}

/// The columns that are left after `n` drops. Confidence goes first, then the
/// wait, then the spill, then the context; speed and name never do.
pub open spec fn after_drops(n: nat) -> Cols {
    Cols { conf: n < 1, ttft: n < 2, resid: n < 3, ctx: n < 4 }
}

/// The columns that fit: as few drops as it takes, at most all four.
pub open spec fn columns_for(mw: nat, w: nat, drops: nat) -> Cols
    decreases 4 - drops,
{
    if drops >= 4 || ROW_FIXED + mw + after_drops(drops).columns() <= w {
        after_drops(drops)
    } else {
        columns_for(mw, w, drops + 1)
    }
}

/// The model column: what the names need, or what is left where even the
/// columns that always stay do not fit, down to a floor.
pub open spec fn model_width(mw: nat, w: nat, c: Cols) -> nat {
    if ROW_FIXED + mw + c.columns() > w {
        let room = if w >= ROW_FIXED + c.columns() { (w - ROW_FIXED - c.columns()) as nat } else { 0 };
        let narrow = if mw <= room { mw } else { room };
        if narrow >= 8 {
            narrow
        } else {
            8
        }
    } else {
        mw
    }
}

/// The longest of the names on screen.
pub open spec fn longest_name(v: Seq<RowView>, idx: Seq<usize>) -> nat
    decreases idx.len(),
{
    if idx.len() == 0 {
        0
    } else {
        let n = longest_name(v, idx.drop_last());
        let m = v[idx.last() as int].id@.len();
        if m > n {
            m
        } else {
            n
        }
    }
}

pub open spec fn wanted_width(v: Seq<RowView>, idx: Seq<usize>) -> nat {
    clamped_width(
        if idx.len() == 0 {
            12
        } else {
            longest_name(v, idx)
        },
    )
}

pub open spec fn layout_of(v: Seq<RowView>, idx: Seq<usize>, w: nat) -> (nat, Cols) {
    let mw = wanted_width(v, idx);
    let c = columns_for(mw, w, 0);
    (model_width(mw, w, c), c)
}

/// Model column width and the columns that fit, for a window `w` wide.
///
/// The model column follows the rows on screen, so a filtered view gets a
/// narrow table rather than columns of padding.
pub fn layout(v: &View, idx: &Vec<usize>, w: usize) -> (r: (usize, Cols))
    requires
        valid_positions(idx@, v.rows@.len()),
    ensures
        (r.0 as nat, r.1) == layout_of(v.rows@, idx@, w as nat),
        8 <= r.0 <= 28,
{
    let mut widest: usize = 0;
    let mut i: usize = 0;
    while i < idx.len()
        invariant
            i <= idx@.len(),
            valid_positions(idx@, v.rows@.len()),
            widest as nat == longest_name(v.rows@, idx@.subrange(0, i as int)),
        decreases idx@.len() - i,
    {
        assert(idx@.subrange(0, i + 1).drop_last() =~= idx@.subrange(0, i as int));
        assert(idx@.subrange(0, i + 1).last() == idx@[i as int]);
        assert(idx@[i as int] < v.rows@.len());
        let n: usize = v.rows[idx[i]].id.as_str().unicode_len();
        if n > widest {
            widest = n;
        }
        i += 1;
    }
    assert(idx@.subrange(0, i as int) =~= idx@);
    let mw: usize = clamp_model_width(if idx.len() == 0 { 12 } else { widest });
    let mut c = Cols { ctx: true, ttft: true, conf: true, resid: true };
    let mut drops: usize = 0;
    while drops < 4 && ROW_FIXED + mw + c.width() > w
        invariant
            drops <= 4,
            mw <= 28,
            c == after_drops(drops as nat),
            columns_for(mw as nat, w as nat, drops as nat) == columns_for(mw as nat, w as nat, 0),
        decreases 4 - drops,
    {
        if drops == 0 {
            c.conf = false;
        } else if drops == 1 {
            c.ttft = false;
        } else if drops == 2 {
            c.resid = false;
        } else {
            c.ctx = false;
        }
        drops += 1;
    }
    let cw: usize = c.width();
    if ROW_FIXED + mw + cw > w {
        let room: usize = w.saturating_sub(ROW_FIXED + cw);
        let narrow: usize = if mw <= room { mw } else { room };
        return (if narrow >= 8 { narrow } else { 8 }, c);
    }
    (mw, c)
}

proof fn lemma_columns_fit(mw: nat, w: nat, drops: nat)
    requires
        drops <= 4,
    ensures
        exists|n: nat|
            drops <= n <= 4 && columns_for(mw, w, drops) == #[trigger] after_drops(n) && (n < 4 ==> ROW_FIXED + mw
                + after_drops(n).columns() <= w) && (forall|k: nat| drops <= k < n ==> ROW_FIXED + mw + (
            #[trigger] after_drops(k)).columns() > w),
    decreases 4 - drops,
{
    if drops >= 4 || ROW_FIXED + mw + after_drops(drops).columns() <= w {
        assert(columns_for(mw, w, drops) == after_drops(drops));
    } else {
        lemma_columns_fit(mw, w, drops + 1);
        let n = choose|n: nat|
            drops + 1 <= n <= 4 && columns_for(mw, w, (drops + 1) as nat) == #[trigger] after_drops(n) && (n < 4
                ==> ROW_FIXED + mw + after_drops(n).columns() <= w) && (forall|k: nat|
                drops + 1 <= k < n ==> ROW_FIXED + mw + (#[trigger] after_drops(k)).columns() > w);
        assert(columns_for(mw, w, drops) == after_drops(n));
        assert forall|k: nat| drops <= k < n implies ROW_FIXED + mw + (#[trigger] after_drops(k)).columns() > w by {
            if k > drops {
                assert(drops + 1 <= k);
            }
        }
    }
}

/// In any window a table is painted in, the name and the speed fit: the row's
/// fixed part, the model column and the columns kept are no wider than it.
pub proof fn the_speed_column_always_fits(v: Seq<RowView>, idx: Seq<usize>, w: nat)
    requires
        w >= MIN_W,
    ensures
        ROW_FIXED + layout_of(v, idx, w).0 + layout_of(v, idx, w).1.columns() <= w,
{
    let mw = wanted_width(v, idx);
    lemma_columns_fit(mw, w, 0);
}

/// As the window narrows, columns only ever go: none comes back.
pub proof fn columns_only_drop_as_the_window_narrows(v: Seq<RowView>, idx: Seq<usize>, narrow: nat, wide: nat)
    requires
        narrow <= wide,
    ensures
        layout_of(v, idx, narrow).1.within(layout_of(v, idx, wide).1),
{
    let mw = wanted_width(v, idx);
    lemma_columns_fit(mw, narrow, 0);
    lemma_columns_fit(mw, wide, 0);
    let a = choose|n: nat|
        0 <= n <= 4 && columns_for(mw, narrow, 0) == #[trigger] after_drops(n) && (n < 4 ==> ROW_FIXED + mw
            + after_drops(n).columns() <= narrow) && (forall|k: nat|
            0 <= k < n ==> ROW_FIXED + mw + (#[trigger] after_drops(k)).columns() > narrow);
    let b = choose|n: nat|
        0 <= n <= 4 && columns_for(mw, wide, 0) == #[trigger] after_drops(n) && (n < 4 ==> ROW_FIXED + mw + after_drops(
            n,
        ).columns() <= wide) && (forall|k: nat| 0 <= k < n ==> ROW_FIXED + mw + (#[trigger] after_drops(k)).columns() > wide);
    if a < b {
        assert(ROW_FIXED + mw + after_drops(a).columns() > wide);
    }
}

// ------------------------------------------------------------------- headers

fn gib2(b: u64) -> (o: String)
    ensures
        o@ == fixed_text(nearest(rounded(b as nat) * 100, pow2(30)), 2),
{
    fixed_decimal(nearest_shifted(round_to_double(b) * 100, 30), 2)
}

fn gib0(b: u64) -> (o: String)
    ensures
        o@ == fixed_text(nearest(rounded(b as nat), pow2(30)), 0),
{
    fixed_decimal(nearest_shifted(round_to_double(b), 30), 0)
}

fn mib2(b: u64) -> (o: String)
    ensures
        o@ == fixed_text(nearest(rounded(b as nat) * 100, pow2(20)), 2),
{
    fixed_decimal(nearest_shifted(round_to_double(b) * 100, 20), 2)
}

/// What machine this is.
pub open spec fn machine_line_text(v: View, cs: Charset) -> Seq<char> {
    "  zc "@ + v.version@ + "  "@ + v.cpu@ + " "@ + cs.sep_text() + " "@ + v.backend@ + " "@ + cs.sep_text() + " "@ + fixed_text(nearest(rounded(v.mem_total as nat), pow2(30)), 0) + " GiB"@
}

fn machine_line(v: &View, cs: Charset) -> (o: String)
    ensures
        o@ == machine_line_text(*v, cs),
{
    let mut o = copy("  zc ");
    o.append(v.version.as_str());
    o.append("  ");
    o.append(v.cpu.as_str());
    o.append(" ");
    o.append(cs.sep());
    o.append(" ");
    o.append(v.backend.as_str());
    o.append(" ");
    o.append(cs.sep());
    o.append(" ");
    o.append(gib0(v.mem_total).as_str());
    o.append(" GiB");
    o
}

/// What was measured on it.
pub open spec fn measured_line_text(v: View, cs: Charset) -> Seq<char> {
    "  "@ + v.ram_bw_gbs.text(0) + " GB/s ram "@ + cs.sep_text() + " "@ + v.disk_gbs.text(1) + " GB/s disk "@ + cs.sep_text() + " "@ + v.gflops.text(0) + " GFLOPS "@ + cs.sep_text() + " KV "@ + v.kv@
}

fn measured_line(v: &View, cs: Charset) -> (o: String)
    ensures
        o@ == measured_line_text(*v, cs),
{
    let mut o = copy("  ");
    o.append(v.ram_bw_gbs.fixed(0).as_str());
    o.append(" GB/s ram ");
    o.append(cs.sep());
    o.append(" ");
    o.append(v.disk_gbs.fixed(1).as_str());
    o.append(" GB/s disk ");
    o.append(cs.sep());
    o.append(" ");
    o.append(v.gflops.fixed(0).as_str());
    o.append(" GFLOPS ");
    o.append(cs.sep());
    o.append(" KV ");
    o.append(v.kv.as_str());
    o
}

/// A row of the table: what always stays, and the columns that fit.
pub open spec fn table_row(
    start: Seq<char>,
    id: Seq<char>,
    quant: Seq<char>,
    speed: Seq<char>,
    ctx: Seq<char>,
    ttft: Seq<char>,
    conf: Seq<char>,
    resid: Seq<char>,
    mw: nat,
    c: Cols,
) -> Seq<char> {
    start + left(id, mw) + " "@ + left(quant, 7) + " "@ + right(speed, 11) + (if c.ctx {
        " "@ + right(ctx, 5)
    } else {
        ""@
    }) + (if c.ttft {
        " "@ + right(ttft, 5)
    } else {
        ""@
    }) + (if c.conf {
        " "@ + left(conf, 6)
    } else {
        ""@
    }) + (if c.resid {
        " "@ + right(resid, 4)
    } else {
        ""@
    })
}

fn table_line(
    start: &str,
    id: &str,
    quant: &str,
    speed: &str,
    ctx: &str,
    ttft: &str,
    conf: &str,
    resid: &str,
    mw: usize,
    c: Cols,
) -> (o: String)
    ensures
        o@ == table_row(start@, id@, quant@, speed@, ctx@, ttft@, conf@, resid@, mw as nat, c),
{
    let a = if c.ctx {
        concat2(" ", pad_left(ctx, 5).as_str())
    } else {
        copy("")
    };
    let b = if c.ttft {
        concat2(" ", pad_left(ttft, 5).as_str())
    } else {
        copy("")
    };
    let d = if c.conf {
        concat2(" ", pad_right(conf, 6).as_str())
    } else {
        copy("")
    };
    let e = if c.resid {
        concat2(" ", pad_left(resid, 4).as_str())
    } else {
        copy("")
    };
    let mut o = copy(start);
    o.append(pad_right(id, mw).as_str());
    o.append(" ");
    o.append(pad_right(quant, 7).as_str());
    o.append(" ");
    o.append(pad_left(speed, 11).as_str());
    o.append(a.as_str());
    o.append(b.as_str());
    o.append(d.as_str());
    o.append(e.as_str());
    o
}

pub open spec fn header_lines(v: View, cs: Charset, w: nat, mw: nat, c: Cols) -> Seq<Seq<char>> {
    seq![
        fitted(machine_line_text(v, cs), w),
        fitted(measured_line_text(v, cs), w),
        fitted(repeated(cs.rule_char(), w), w),
        fitted(
            table_row("    "@, "MODEL"@, "QUANT"@, "decode t/s"@, "ctx"@, "TTFT"@, "conf"@, "%RAM"@, mw, c),
            w,
        ),
    ]
}

fn header(v: &View, cs: Charset, w: usize, mw: usize, c: Cols) -> (o: Vec<String>)
    ensures
        texts(o@) == header_lines(*v, cs, w as nat, mw as nat, c),
{
    let mut o: Vec<String> = Vec::new();
    o.push(fit(machine_line(v, cs).as_str(), w));
    o.push(fit(measured_line(v, cs).as_str(), w));
    o.push(fit(cs.rule_line(w).as_str(), w));
    o.push(
        fit(
            table_line("    ", "MODEL", "QUANT", "decode t/s", "ctx", "TTFT", "conf", "%RAM", mw, c).as_str(),
            w,
        ),
    );
    assert(texts(o@) =~= header_lines(*v, cs, w as nat, mw as nat, c));
    o
}

// ------------------------------------------------------------------ the list

/// The dot before a row: whether it runs, and whether it spills.
pub open spec fn dot_of(r: RowView, cs: Charset) -> Seq<char> {
    if r.wont_fit {
        cs.wont_fit_text()
    } else if spills(r.resident) {
        cs.partial_text()
    } else {
        cs.resident_text()
    }
}

pub open spec fn list_row(r: RowView, cs: Charset, on_cursor: bool, mw: nat, c: Cols) -> Seq<char> {
    table_row(
        (if on_cursor {
            ">"@
        } else {
            " "@
        }) + " "@ + dot_of(r, cs) + " "@,
        r.id@,
        r.quant@,
        r.speed@,
        r.ctx@,
        r.ttft@,
        r.conf@,
        if spills(r.resident) {
            r.resident.in_percent().text(0) + "%"@
        } else {
            ""@
        },
        mw,
        c,
    )
}

fn list_line(r: &RowView, cs: Charset, on_cursor: bool, mw: usize, c: Cols) -> (o: String)
    ensures
        o@ == list_row(*r, cs, on_cursor, mw as nat, c),
{
    let spilling = r.resident.lt(Double { bits: RESIDENT_BITS });
    let dot = if r.wont_fit {
        cs.wont_fit()
    } else if spilling {
        cs.partial()
    } else {
        cs.resident()
    };
    let resid = if spilling {
        concat2(r.resident.percent().fixed(0).as_str(), "%")
    } else {
        copy("")
    };
    let mut start = copy(if on_cursor { ">" } else { " " });
    start.append(" ");
    start.append(dot);
    start.append(" ");
    table_line(
        start.as_str(),
        r.id.as_str(),
        r.quant.as_str(),
        r.speed.as_str(),
        r.ctx.as_str(),
        r.ttft.as_str(),
        r.conf.as_str(),
        resid.as_str(),
        mw,
        c,
    )
}

/// How many rows are on screen, of `n` from `top` on, in `height` lines.
pub open spec fn shown(n: nat, top: int, height: nat) -> nat {
    if top >= n {
        0
    } else if n - top <= height {
        (n - top) as nat
    } else {
        height
    }
}

pub open spec fn list_lines(v: View, idx: Seq<usize>, s: StateView, cs: Charset, w: nat, height: nat, mw: nat, c: Cols) -> Seq<Seq<char>> {
    Seq::new(
        shown(idx.len(), s.top, height),
        |i: int| fitted(list_row(v.rows@[idx[s.top + i] as int], cs, s.top + i == s.cursor, mw, c), w),
    )
}

fn list(v: &View, idx: &Vec<usize>, s: &State, cs: Charset, w: usize, height: usize, mw: usize, c: Cols) -> (o: Vec<String>)
    requires
        valid_positions(idx@, v.rows@.len()),
    ensures
        texts(o@) == list_lines(*v, idx@, s@, cs, w as nat, height as nat, mw as nat, c),
{
    let n: usize = if s.top >= idx.len() {
        0
    } else if idx.len() - s.top <= height {
        idx.len() - s.top
    } else {
        height
    };
    let mut o: Vec<String> = Vec::new();
    let mut i: usize = 0;
    let ghost all = list_lines(*v, idx@, s@, cs, w as nat, height as nat, mw as nat, c);
    assert(all.len() == n);
    while i < n
        invariant
            i <= n,
            n == all.len(),
            n > 0 ==> s.top + n <= idx@.len(),
            idx@.len() <= usize::MAX,
            valid_positions(idx@, v.rows@.len()),
            all == list_lines(*v, idx@, s@, cs, w as nat, height as nat, mw as nat, c),
            texts(o@) =~= all.subrange(0, i as int),
        decreases n - i,
    {
        let k: usize = s.top + i;
        assert(idx@[k as int] < v.rows@.len());
        let line = list_line(&v.rows[idx[k]], cs, k == s.cursor, mw, c);
        let ghost prev = o@;
        o.push(fit(line.as_str(), w));
        assert(texts(o@) =~= texts(prev).push(all[i as int]));
        i += 1;
    }
    assert(all.subrange(0, n as int) =~= all);
    o
}

// --------------------------------------------------------------- the overlay

/// The keys.
pub open spec fn help_texts(cs: Charset, w: nat) -> Seq<Seq<char>> {
    seq![
        Seq::empty(),
        fitted(repeated(cs.rule_char(), w), w),
        fitted("  up/down or j/k   move            enter   how the number was derived"@, w),
        fitted("  pgup/pgdn        move by a page  /       filter by name, esc clears"@, w),
        fitted("  home/end         first / last    s       sort: verdict, speed, ctx"@, w),
        fitted("  a                every quant     q       quit, printing the report"@, w),
    ]
}

fn help_lines(cs: Charset, w: usize) -> (o: Vec<String>)
    ensures
        texts(o@) == help_texts(cs, w as nat),
{
    let mut o: Vec<String> = Vec::new();
    o.push(String::new());
    o.push(fit(cs.rule_line(w).as_str(), w));
    o.push(fit("  up/down or j/k   move            enter   how the number was derived", w));
    o.push(fit("  pgup/pgdn        move by a page  /       filter by name, esc clears", w));
    o.push(fit("  home/end         first / last    s       sort: verdict, speed, ctx", w));
    o.push(fit("  a                every quant     q       quit, printing the report", w));
    assert(texts(o@) =~= help_texts(cs, w as nat));
    o
}

/// Which model the pane is about.
pub open spec fn detail_title_text(v: View, r: RowView, cs: Charset) -> Seq<char> {
    "  "@ + r.id@ + " "@ + cs.sep_text() + " "@ + r.quant@ + "   "@ + r.speed@ + " tok/s"@
}

fn detail_title(v: &View, r: &RowView, cs: Charset) -> (o: String)
    ensures
        o@ == detail_title_text(*v, *r, cs),
{
    let mut o = copy("  ");
    o.append(r.id.as_str());
    o.append(" ");
    o.append(cs.sep());
    o.append(" ");
    o.append(r.quant.as_str());
    o.append("   ");
    o.append(r.speed.as_str());
    o.append(" tok/s");
    o
}

/// How large it is and how much stays in memory.
pub open spec fn detail_weights_text(v: View, r: RowView, cs: Charset) -> Seq<char> {
    "  weights    "@ + right(fixed_text(nearest(rounded(r.weight_bytes as nat) * 100, pow2(30)), 2), 8) + " GiB    "@ + r.resident.in_percent().text(0) + "% resident in RAM"@
}

fn detail_weights(v: &View, r: &RowView, cs: Charset) -> (o: String)
    ensures
        o@ == detail_weights_text(*v, *r, cs),
{
    let mut o = copy("  weights    ");
    o.append(pad_left(gib2(r.weight_bytes).as_str(), 8).as_str());
    o.append(" GiB    ");
    o.append(r.resident.percent().fixed(0).as_str());
    o.append("% resident in RAM");
    o
}

/// The bits of 2^30.
pub const GIB_BITS: u64 = 0x41D0_0000_0000_0000;

/// How much of the weights streams from disk, in GiB.
pub open spec fn spill_of(r: RowView) -> Double {
    Double::count(r.weight_bytes as nat).quotient(Double { bits: GIB_BITS }).product(
        (Double { bits: ONE_BITS }).difference(r.resident),
    )
}

fn spill(r: &RowView) -> (d: Double)
    ensures
        d == spill_of(*r),
{
    Double::of_count(r.weight_bytes).over(Double { bits: GIB_BITS }).times((Double { bits: ONE_BITS }).less(r.resident))
}

/// How much streams, and how fast.
pub open spec fn detail_spill_text(v: View, r: RowView, cs: Charset) -> Seq<char> {
    "  spill      "@ + right(spill_of(r).text(2), 8) + " GiB    streams at "@ + v.disk_gbs.text(1) + " GB/s"@
}

fn detail_spill(v: &View, r: &RowView, cs: Charset) -> (o: String)
    ensures
        o@ == detail_spill_text(*v, *r, cs),
{
    let mut o = copy("  spill      ");
    o.append(pad_left(spill(r).fixed(2).as_str(), 8).as_str());
    o.append(" GiB    streams at ");
    o.append(v.disk_gbs.fixed(1).as_str());
    o.append(" GB/s");
    o
}

/// The bandwidth behind the speed.
pub open spec fn detail_bandwidth_text(v: View, r: RowView, cs: Charset) -> Seq<char> {
    "  bandwidth  "@ + right(v.ram_bw_gbs.text(0), 8) + " GB/s   measured on this machine"@
}

fn detail_bandwidth(v: &View, r: &RowView, cs: Charset) -> (o: String)
    ensures
        o@ == detail_bandwidth_text(*v, *r, cs),
{
    let mut o = copy("  bandwidth  ");
    o.append(pad_left(v.ram_bw_gbs.fixed(0).as_str(), 8).as_str());
    o.append(" GB/s   measured on this machine");
    o
}

/// The efficiency behind the speed.
pub open spec fn detail_eta_text(v: View, r: RowView, cs: Charset) -> Seq<char> {
    "  eta        "@ + right(r.eta.text(3), 8) + "        fitted, confidence "@ + r.conf@
}

fn detail_eta(v: &View, r: &RowView, cs: Charset) -> (o: String)
    ensures
        o@ == detail_eta_text(*v, *r, cs),
{
    let mut o = copy("  eta        ");
    o.append(pad_left(r.eta.fixed(3).as_str(), 8).as_str());
    o.append("        fitted, confidence ");
    o.append(r.conf.as_str());
    o
}

/// The context and what a token of it costs.
pub open spec fn detail_context_text(v: View, r: RowView, cs: Charset) -> Seq<char> {
    "  context    "@ + right(r.ctx@, 8) + "        KV "@ + v.kv@ + " at "@ + fixed_text(nearest(rounded(r.kv_bytes_per_token as nat) * 100, pow2(20)), 2) + " MiB/token"@
}

fn detail_context(v: &View, r: &RowView, cs: Charset) -> (o: String)
    ensures
        o@ == detail_context_text(*v, *r, cs),
{
    let mut o = copy("  context    ");
    o.append(pad_left(r.ctx.as_str(), 8).as_str());
    o.append("        KV ");
    o.append(v.kv.as_str());
    o.append(" at ");
    o.append(mib2(r.kv_bytes_per_token).as_str());
    o.append(" MiB/token");
    o
}

/// The wait for the first token.
pub open spec fn detail_ttft_text(v: View, r: RowView, cs: Charset) -> Seq<char> {
    "  TTFT       "@ + right(r.ttft@, 8) + "        for a "@ + dec(v.prompt_tokens as nat) + "-token prompt"@
}

fn detail_ttft(v: &View, r: &RowView, cs: Charset) -> (o: String)
    ensures
        o@ == detail_ttft_text(*v, *r, cs),
{
    let mut o = copy("  TTFT       ");
    o.append(pad_left(r.ttft.as_str(), 8).as_str());
    o.append("        for a ");
    o.append(decimal(v.prompt_tokens as u128).as_str());
    o.append("-token prompt");
    o
}

/// Spill worth a line: more than 0.005 GiB.
pub open spec fn spill_shown(r: RowView) -> bool {
    (Double { bits: 0x3F74_7AE1_47AE_147B }).below(spill_of(r))
}

fn spill_is_shown(r: &RowView) -> (b: bool)
    ensures
        b == spill_shown(*r),
{
    (Double { bits: 0x3F74_7AE1_47AE_147B }).lt(spill(r))
}

/// Where the number came from: every value was computed elsewhere, and
/// anything unmeasured is a dash as in the table.
pub open spec fn detail_texts(v: View, idx: Seq<usize>, s: StateView, cs: Charset, w: nat) -> Seq<Seq<char>> {
    if s.cursor >= idx.len() {
        Seq::empty()
    } else {
        let r = v.rows@[idx[s.cursor] as int];
        seq![
            Seq::empty(),
            fitted(repeated(cs.rule_char(), w), w),
            fitted(detail_title_text(v, r, cs), w),
            Seq::empty(),
            fitted(detail_weights_text(v, r, cs), w),
        ] + (if spill_shown(r) {
            seq![fitted(detail_spill_text(v, r, cs), w)]
        } else {
            Seq::empty()
        }) + seq![
            fitted(detail_bandwidth_text(v, r, cs), w),
            fitted(detail_eta_text(v, r, cs), w),
            fitted(detail_context_text(v, r, cs), w),
            fitted(detail_ttft_text(v, r, cs), w),
        ]
    }
}

fn detail_lines(v: &View, idx: &Vec<usize>, s: &State, cs: Charset, w: usize) -> (o: Vec<String>)
    requires
        valid_positions(idx@, v.rows@.len()),
    ensures
        texts(o@) == detail_texts(*v, idx@, s@, cs, w as nat),
{
    let mut o: Vec<String> = Vec::new();
    if s.cursor >= idx.len() {
        assert(texts(o@) =~= Seq::<Seq<char>>::empty());
        return o;
    }
    assert(idx@[s.cursor as int] < v.rows@.len());
    let r = &v.rows[idx[s.cursor]];
    o.push(String::new());
    o.push(fit(cs.rule_line(w).as_str(), w));
    o.push(fit(detail_title(v, r, cs).as_str(), w));
    o.push(String::new());
    o.push(fit(detail_weights(v, r, cs).as_str(), w));
    if spill_is_shown(r) {
        o.push(fit(detail_spill(v, r, cs).as_str(), w));
    }
    o.push(fit(detail_bandwidth(v, r, cs).as_str(), w));
    o.push(fit(detail_eta(v, r, cs).as_str(), w));
    o.push(fit(detail_context(v, r, cs).as_str(), w));
    o.push(fit(detail_ttft(v, r, cs).as_str(), w));
    assert(texts(o@) =~= detail_texts(*v, idx@, s@, cs, w as nat));
    o
}

/// The hint line.
pub open spec fn footer_text(n: nat, total: nat, s: StateView, cs: Charset) -> Seq<char> {
    if s.filtering {
        "  /"@ + s.filter + "_"@
    } else if s.help {
        "  ? or esc to close"@
    } else {
        "  "@ + dec(n) + " of "@ + dec(total) + " "@ + cs.sep_text() + " sort "@ + s.sort.label_text() + " "@ + cs.sep_text() + " enter why "@ + cs.sep_text() + " / filter "@ + cs.sep_text() + " a quants "@ + cs.sep_text() + " ? keys "@ + cs.sep_text() + " q quit"@
    }
}

fn footer(n: usize, total: usize, s: &State, cs: Charset) -> (o: String)
    ensures
        o@ == footer_text(n as nat, total as nat, s@, cs),
{
    if s.filtering {
        return concat3("  /", s.filter.as_str(), "_");
    }
    if s.help {
        return copy("  ? or esc to close");
    }
    let mut o = copy("  ");
    o.append(decimal(n as u128).as_str());
    o.append(" of ");
    o.append(decimal(total as u128).as_str());
    o.append(" ");
    o.append(cs.sep());
    o.append(" sort ");
    o.append(s.sort.label());
    o.append(" ");
    o.append(cs.sep());
    o.append(" enter why ");
    o.append(cs.sep());
    o.append(" / filter ");
    o.append(cs.sep());
    o.append(" a quants ");
    o.append(cs.sep());
    o.append(" ? keys ");
    o.append(cs.sep());
    o.append(" q quit");
    o
}

// ------------------------------------------------------------------ the frame

fn extend(out: &mut Vec<String>, more: Vec<String>)
    ensures
        texts(final(out)@) == texts(old(out)@) + texts(more@),
{
    let mut m = more;
    out.append(&mut m);
    assert(texts(out@) =~= texts(old(out)@) + texts(more@));
}

/// What is said where no table can be painted.
pub open spec fn too_small(w: nat, h: nat) -> Seq<Seq<char>> {
    seq![
        fitted("terminal too small"@, w),
        fitted("need 40x10, have "@ + dec(w) + "x"@ + dec(h), w),
    ]
}

/// Lines the list has, beside the pane and the overlay.
pub open spec fn list_height(h: nat, detail: nat, help: nat) -> nat {
    let body = body_rows(h);
    if body >= detail + help {
        (body - detail - help) as nat
    } else {
        0
    }
}

/// Lines that the pane takes. Spill has one of its own.
pub open spec fn pane_lines(v: View, idx: Seq<usize>, s: StateView) -> nat {
    if !s.detail || s.cursor >= idx.len() {
        0
    } else if spill_shown(v.rows@[idx[s.cursor] as int]) {
        10
    } else {
        9
    }
}

/// Lines that the overlay takes.
pub open spec fn overlay_lines(s: StateView) -> nat {
    if s.help {
        6
    } else {
        0
    }
}

/// Rows that the list has room for in a window `h` tall.
pub open spec fn shown_height(v: View, idx: Seq<usize>, s: StateView, h: nat) -> nat {
    list_height(h, pane_lines(v, idx, s), overlay_lines(s))
}

/// Rows the list has room for, with the pane and the overlay as they are.
pub fn list_rows(v: &View, idx: &Vec<usize>, s: &State, h: usize) -> (r: usize)
    requires
        valid_positions(idx@, v.rows@.len()),
    ensures
        r as nat == shown_height(*v, idx@, s@, h as nat),
{
    let pane: usize = if !s.detail || s.cursor >= idx.len() {
        0
    } else {
        assert(idx@[s.cursor as int] < v.rows@.len());
        if spill_is_shown(&v.rows[idx[s.cursor]]) {
            10
        } else {
            9
        }
    };
    let overlay: usize = if s.help { 6 } else { 0 };
    body_height(h).saturating_sub(pane).saturating_sub(overlay)
}

/// Everything above the footer.
pub open spec fn upper_lines(v: View, idx: Seq<usize>, s: StateView, cs: Charset, w: nat, h: nat) -> Seq<Seq<char>> {
    let lay = layout_of(v.rows@, idx, w);
    let detail = if s.detail {
        detail_texts(v, idx, s, cs, w)
    } else {
        Seq::empty()
    };
    let help = if s.help {
        help_texts(cs, w)
    } else {
        Seq::empty()
    };
    header_lines(v, cs, w, lay.0, lay.1) + list_lines(
        v,
        idx,
        s,
        cs,
        w,
        list_height(h, detail.len(), help.len()),
        lay.0,
        lay.1,
    ) + (if idx.len() == 0 {
        seq![fitted("    nothing matches that filter"@, w)]
    } else {
        Seq::empty()
    }) + detail + help
}

fn upper(v: &View, idx: &Vec<usize>, s: &State, cs: Charset, w: usize, h: usize) -> (o: Vec<String>)
    requires
        valid_positions(idx@, v.rows@.len()),
    ensures
        texts(o@) == upper_lines(*v, idx@, s@, cs, w as nat, h as nat),
{
    let (mw, cols) = layout(v, idx, w);
    let detail = if s.detail {
        detail_lines(v, idx, s, cs, w)
    } else {
        let none: Vec<String> = Vec::new();
        assert(texts(none@) =~= Seq::<Seq<char>>::empty());
        none
    };
    let help = if s.help {
        help_lines(cs, w)
    } else {
        let none: Vec<String> = Vec::new();
        assert(texts(none@) =~= Seq::<Seq<char>>::empty());
        none
    };
    assert(texts(detail@).len() == detail@.len());
    assert(texts(help@).len() == help@.len());
    let height: usize = body_height(h).saturating_sub(detail.len()).saturating_sub(help.len());
    let mut out = header(v, cs, w, mw, cols);
    extend(&mut out, list(v, idx, s, cs, w, height, mw, cols));
    if idx.len() == 0 {
        let ghost prev = out@;
        out.push(fit("    nothing matches that filter", w));
        assert(texts(out@) =~= texts(prev) + seq![fitted("    nothing matches that filter"@, w as nat)]);
    } else {
        assert(texts(out@) + Seq::<Seq<char>>::empty() =~= texts(out@));
    }
    extend(&mut out, detail);
    extend(&mut out, help);
    out
}

/// The lines of a window `w` wide and `h` tall.
pub open spec fn frame_lines(v: View, idx: Seq<usize>, total: nat, s: StateView, cs: Charset, w: nat, h: nat) -> Seq<Seq<char>> {
    if w < MIN_W || h < MIN_H {
        resized(too_small(w, h), h)
    } else {
        resized(upper_lines(v, idx, s, cs, w, h), (h - BOTTOM) as nat) + seq![
            fitted(repeated(cs.rule_char(), w), w),
            fitted(footer_text(idx.len(), total, s, cs), w),
        ]
    }
}

fn small_frame(w: usize, h: usize) -> (o: Vec<String>)
    ensures
        texts(o@) == resized(too_small(w as nat, h as nat), h as nat),
        o@.len() == h,
{
    let mut out: Vec<String> = Vec::new();
    out.push(fit("terminal too small", w));
    let mut need = copy("need 40x10, have ");
    need.append(decimal(w as u128).as_str());
    need.append("x");
    need.append(decimal(h as u128).as_str());
    out.push(fit(need.as_str(), w));
    assert(texts(out@) =~= too_small(w as nat, h as nat));
    pad_to(&mut out, h);
    assert(texts(out@).len() == out@.len());
    out
}

fn close_frame(out: &mut Vec<String>, n: usize, total: usize, s: &State, cs: Charset, w: usize, h: usize)
    requires
        h >= MIN_H,
    ensures
        texts(final(out)@) == resized(texts(old(out)@), (h - BOTTOM) as nat) + seq![
            fitted(repeated(cs.rule_char(), w as nat), w as nat),
            fitted(footer_text(n as nat, total as nat, s@, cs), w as nat),
        ],
        final(out)@.len() == h,
{
    pad_to(out, h - BOTTOM);
    let ghost prev = out@;
    out.push(fit(cs.rule_line(w).as_str(), w));
    out.push(fit(footer(n, total, s, cs).as_str(), w));
    assert(texts(out@) =~= texts(prev) + seq![
        fitted(repeated(cs.rule_char(), w as nat), w as nat),
        fitted(footer_text(n as nat, total as nat, s@, cs), w as nat),
    ]);
    assert(texts(out@).len() == out@.len());
}

/// The exact lines to paint: `idx` are the rows on screen in order, `total` is
/// how many the view holds before the filter.
pub fn frame(v: &View, idx: &Vec<usize>, total: usize, s: &State, cs: Charset, w: usize, h: usize) -> (o: Vec<String>)
    requires
        valid_positions(idx@, v.rows@.len()),
    ensures
        texts(o@) == frame_lines(*v, idx@, total as nat, s@, cs, w as nat, h as nat),
        o@.len() == h,
{
    if w < MIN_W || h < MIN_H {
        return small_frame(w, h);
    }
    let mut out = upper(v, idx, s, cs, w, h);
    close_frame(&mut out, idx.len(), total, s, cs, w, h);
    out
}

// ---------------------------------------------------------------------- laws

pub open spec fn all_paintable(l: Seq<Seq<char>>, w: nat) -> bool {
    forall|i: int| 0 <= i < l.len() ==> paintable(#[trigger] l[i], w)
}

proof fn lemma_detail_paintable(v: View, idx: Seq<usize>, s: StateView, cs: Charset, w: nat)
    ensures
        all_paintable(detail_texts(v, idx, s, cs, w), w),
{
    if s.cursor < idx.len() {
        let r = v.rows@[idx[s.cursor] as int];
        lemma_fitted(repeated(cs.rule_char(), w), w);
        lemma_fitted(detail_title_text(v, r, cs), w);
        lemma_fitted(detail_weights_text(v, r, cs), w);
        lemma_fitted(detail_spill_text(v, r, cs), w);
        lemma_fitted(detail_bandwidth_text(v, r, cs), w);
        lemma_fitted(detail_eta_text(v, r, cs), w);
        lemma_fitted(detail_context_text(v, r, cs), w);
        lemma_fitted(detail_ttft_text(v, r, cs), w);
    }
}

proof fn lemma_help_paintable(cs: Charset, w: nat)
    ensures
        all_paintable(help_texts(cs, w), w),
{
    lemma_fitted(repeated(cs.rule_char(), w), w);
    lemma_fitted("  up/down or j/k   move            enter   how the number was derived"@, w);
    lemma_fitted("  pgup/pgdn        move by a page  /       filter by name, esc clears"@, w);
    lemma_fitted("  home/end         first / last    s       sort: verdict, speed, ctx"@, w);
    lemma_fitted("  a                every quant     q       quit, printing the report"@, w);
}

proof fn lemma_paintable_concat(a: Seq<Seq<char>>, b: Seq<Seq<char>>, w: nat)
    requires
        all_paintable(a, w),
        all_paintable(b, w),
    ensures
        all_paintable(a + b, w),
{
    assert forall|i: int| 0 <= i < (a + b).len() implies paintable(#[trigger] (a + b)[i], w) by {
        if i < a.len() {
            assert((a + b)[i] == a[i]);
        } else {
            assert((a + b)[i] == b[i - a.len()]);
        }
    }
}

proof fn lemma_paintable_resized(a: Seq<Seq<char>>, n: nat, w: nat)
    requires
        all_paintable(a, w),
    ensures
        all_paintable(resized(a, n), w),
        resized(a, n).len() == n,
{
    assert forall|i: int| 0 <= i < n implies paintable(#[trigger] resized(a, n)[i], w) by {
        if i < a.len() {
            assert(resized(a, n)[i] == a[i]);
        }
    }
}

proof fn lemma_header_paintable(v: View, cs: Charset, w: nat, mw: nat, c: Cols)
    ensures
        all_paintable(header_lines(v, cs, w, mw, c), w),
{
    lemma_fitted(machine_line_text(v, cs), w);
    lemma_fitted(measured_line_text(v, cs), w);
    lemma_fitted(repeated(cs.rule_char(), w), w);
    lemma_fitted(
        table_row("    "@, "MODEL"@, "QUANT"@, "decode t/s"@, "ctx"@, "TTFT"@, "conf"@, "%RAM"@, mw, c),
        w,
    );
}

proof fn lemma_list_paintable(v: View, idx: Seq<usize>, s: StateView, cs: Charset, w: nat, height: nat, mw: nat, c: Cols)
    ensures
        all_paintable(list_lines(v, idx, s, cs, w, height, mw, c), w),
{
    let l = list_lines(v, idx, s, cs, w, height, mw, c);
    assert forall|i: int| 0 <= i < l.len() implies paintable(#[trigger] l[i], w) by {
        lemma_fitted(list_row(v.rows@[idx[s.top + i] as int], cs, s.top + i == s.cursor, mw, c), w);
    }
}

proof fn lemma_upper_paintable(v: View, idx: Seq<usize>, s: StateView, cs: Charset, w: nat, h: nat)
    ensures
        all_paintable(upper_lines(v, idx, s, cs, w, h), w),
{
    let lay = layout_of(v.rows@, idx, w);
    let detail = if s.detail {
        detail_texts(v, idx, s, cs, w)
    } else {
        Seq::empty()
    };
    let help = if s.help {
        help_texts(cs, w)
    } else {
        Seq::empty()
    };
    let height = list_height(h, detail.len(), help.len());
    let a = header_lines(v, cs, w, lay.0, lay.1);
    let b = list_lines(v, idx, s, cs, w, height, lay.0, lay.1);
    let none = if idx.len() == 0 {
        seq![fitted("    nothing matches that filter"@, w)]
    } else {
        Seq::empty()
    };
    lemma_header_paintable(v, cs, w, lay.0, lay.1);
    lemma_list_paintable(v, idx, s, cs, w, height, lay.0, lay.1);
    lemma_fitted("    nothing matches that filter"@, w);
    assert(all_paintable(none, w));
    lemma_detail_paintable(v, idx, s, cs, w);
    lemma_help_paintable(cs, w);
    assert(all_paintable(detail, w));
    assert(all_paintable(help, w));
    lemma_paintable_concat(a, b, w);
    lemma_paintable_concat(a + b, none, w);
    lemma_paintable_concat(a + b + none, detail, w);
    lemma_paintable_concat(a + b + none + detail, help, w);
}

/// Whatever is shown, a frame is exactly as tall as its window, no line is
/// wider than it, and none ends in white space.
pub proof fn a_frame_fits_its_window(v: View, idx: Seq<usize>, total: nat, s: StateView, cs: Charset, w: nat, h: nat)
    ensures
        frame_lines(v, idx, total, s, cs, w, h).len() == h,
        all_paintable(frame_lines(v, idx, total, s, cs, w, h), w),
{
    if w < MIN_W || h < MIN_H {
        lemma_fitted("terminal too small"@, w);
        lemma_fitted("need 40x10, have "@ + dec(w) + "x"@ + dec(h), w);
        assert(all_paintable(too_small(w, h), w));
        lemma_paintable_resized(too_small(w, h), h, w);
    } else {
        lemma_upper_paintable(v, idx, s, cs, w, h);
        lemma_paintable_resized(upper_lines(v, idx, s, cs, w, h), (h - BOTTOM) as nat, w);
        let foot = seq![
            fitted(repeated(cs.rule_char(), w), w),
            fitted(footer_text(idx.len(), total, s, cs), w),
        ];
        lemma_fitted(repeated(cs.rule_char(), w), w);
        lemma_fitted(footer_text(idx.len(), total, s, cs), w);
        assert(all_paintable(foot, w));
        lemma_paintable_concat(resized(upper_lines(v, idx, s, cs, w, h), (h - BOTTOM) as nat), foot, w);
    }
}

} // verus!
