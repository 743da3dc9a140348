//! One result, rendered many ways.
//!
//! Every surface builds the same [`Report`] and hands it to a renderer here:
//! the moment a second surface computes its own view of a prediction, the two
//! drift apart.

pub mod charset;
pub mod json;
pub mod laws;
pub mod markdown;
pub mod progress;
pub mod ranking;
pub mod text;

use vstd::prelude::*;
use crate::bench::{ComputeResult, DiskResult, RamResult};
use crate::chars::{concat2, concat3, copy, dec, decimal, repeat, repeated, replace, replaced, same, texts, words, words_of};
use crate::double::{Double, THOUSAND_BITS, TWO_BITS};
use crate::kv::KvPrecision;
use crate::order::{in_order, sort_positions, Sorter};
use crate::predict::{Backend, Prediction, Verdict};
use crate::probe::cpu::Cpu;
use crate::probe::env::Env;
use crate::probe::gpu::Gpu;
use crate::probe::memory::Memory;
use crate::probe::storage::Storage;
use crate::spec::Quant;

verus! {

/// One prediction, plus the identity of what was predicted.
pub struct Row {
    pub model_id: String,
    pub quant: Quant,
    pub prediction: Prediction,
}

/// What the predictions assumed. A tok/s figure without its context length and
/// KV precision is not a claim anyone can check.
pub struct Assumptions {
    pub prompt_tokens: u32,
    pub ubatch: u32,
    pub kv_precision: KvPrecision,
    /// True when the budget used was the idle-machine figure.
    pub idle_machine: bool,
    /// Set when no calibration data backs any coefficient yet.
    pub uncalibrated: bool,
    /// True when no prefill measurement exists for this backend.
    pub prefill_unmeasured: bool,
    /// How many rows there were before the cut. The cut is made when the
    /// report is built, so every surface describes the same set.
    pub total_rows: usize,
}

pub struct Report {
    pub cpu: Cpu,
    pub mem: Memory,
    pub env: Env,
    pub storage: Storage,
    pub gpus: Vec<Gpu>,
    pub ram: RamResult,
    pub compute: ComputeResult,
    /// `None` when the disk measurement failed. Never substituted: streaming
    /// speed is predicted from it.
    pub disk: Option<DiskResult>,
    pub backend: Backend,
    /// Bandwidth figure actually used for prediction.
    pub ram_bw_gbs: Double,
    /// VRAM bandwidth of the card predictions run against. 0 without one, and
    /// always looked up.
    pub vram_bw_gbs: Double,
    pub vram_bytes: u64,
    pub disk_gbs: Double,
    pub budget_idle: u64,
    pub budget_now: u64,
    pub assumptions: Assumptions,
    pub models: Vec<Row>,
}

// ------------------------------------------------------------------ redaction

/// A home directory that can be told from the rest of the file system.
pub open spec fn usable_home(home: Option<Seq<char>>) -> bool {
    home matches Some(h) && h.len() > 0 && h != "/"@
}

/// `s` with the home directory replaced by a tilde.
pub open spec fn redacted(s: Seq<char>, home: Option<Seq<char>>) -> Seq<char> {
    if usable_home(home) {
        replaced(s, home->0, "~"@)
    } else {
        s
    }
}

pub open spec fn opt_str(o: Option<&str>) -> Option<Seq<char>> {
    match o {
        Some(s) => Some(s@),
        None => None,
    }
}

/// Replace the user's home directory with `~`.
///
/// A single substring replacement, because the failure that matters is missing
/// an occurrence: a path under home carries a real name into a public report.
pub fn redact(s: &str, home: Option<&str>) -> (r: String)
    ensures
        r@ == redacted(s@, opt_str(home)),
{
    match home {
        Some(h) => if h.unicode_len() > 0 && !same(h, "/") {
            replace(s, h, "~")
        } else {
            copy(s)
        },
        None => copy(s),
    }
}

/// A degenerate home directory changes nothing: it would rewrite every path
/// and protect nothing.
pub proof fn a_degenerate_home_is_ignored(s: Seq<char>)
    ensures
        redacted(s, None) == s,
        redacted(s, Some("/"@)) == s,
        redacted(s, Some(Seq::empty())) == s,
{
}

/// The user's home directory, however the platform spells it.
pub fn home(unix: Option<String>, windows: Option<String>) -> (r: Option<String>)
    ensures
        r == (if unix is Some {
            unix
        } else {
            windows
        }),
{
    match unix {
        Some(h) => Some(h),
        None => windows,
    }
}

/// A variable that is set, and to something.
pub open spec fn set_to(v: Option<String>) -> Option<Seq<char>> {
    match v {
        Some(s) => if s@.len() > 0 {
            Some(s@)
        } else {
            None
        },
        None => None,
    }
}

/// The value of a variable that is set to something.
pub fn setting(v: &Option<String>) -> (r: Option<&str>)
    ensures
        opt_str(r) == set_to(*v),
{
    match v {
        Some(s) => if s.as_str().unicode_len() > 0 {
            Some(s.as_str())
        } else {
            None
        },
        None => None,
    }
}

// ------------------------------------------------------------------- wrapping

/// Lines that are full, and the one being filled.
pub struct Filling {
    pub done: Seq<Seq<char>>,
    pub line: Seq<char>,
}

/// One more word: on the line if there is room for it, else on the next.
pub open spec fn with_word(f: Filling, word: Seq<char>, room: nat) -> Filling {
    if f.line.len() == 0 {
        Filling { done: f.done, line: word }
    } else if f.line.len() + 1 + word.len() <= room {
        Filling { done: f.done, line: f.line + seq![' '] + word }
    } else {
        Filling { done: f.done.push(f.line), line: word }
    }
}

pub open spec fn filled(w: Seq<Seq<char>>, room: nat) -> Filling
    decreases w.len(),
{
    if w.len() == 0 {
        Filling { done: Seq::empty(), line: Seq::empty() }
    } else {
        with_word(filled(w.drop_last(), room), w.last(), room)
    }
}

/// The columns a line may take up besides the indent.
pub open spec fn room_for(width: nat, indent: nat) -> nat {
    if width > indent {
        (width - indent) as nat
    } else {
        1
    }
}

/// The words on lines, as many on each as there is room for.
pub open spec fn filled_lines(w: Seq<Seq<char>>, room: nat) -> Seq<Seq<char>> {
    let f = filled(w, room);
    if f.line.len() == 0 {
        f.done
    } else {
        f.done.push(f.line)
    }
}

/// `text` wrapped to `width` columns, every line indented.
pub open spec fn wrapped(text: Seq<char>, width: nat, indent: nat) -> Seq<Seq<char>> {
    filled_lines(words(text), room_for(width, indent)).map_values(|l: Seq<char>| repeated(' ', indent) + l)
}

/// Wrap `text` to `width` columns, indenting every line by `indent` spaces.
///
/// A word longer than the width gets its own over-long line rather than being
/// broken: the long words here are paths and URLs, and a path split across two
/// lines is a path nobody can copy.
pub fn wrap(text: &str, width: usize, indent: usize) -> (r: Vec<String>)
    ensures
        texts(r@) == wrapped(text@, width as nat, indent as nat),
{
    let pad = repeat(' ', indent);
    let room: usize = if width > indent { width - indent } else { 1 };
    let w = words_of(text);
    let ghost all = texts(w@);
    let mut out: Vec<String> = Vec::new();
    let mut line = String::new();
    let mut i: usize = 0;
    assert(all.subrange(0, 0) =~= Seq::<Seq<char>>::empty());
    assert(texts(out@) =~= Seq::<Seq<char>>::empty().map_values(|l: Seq<char>| pad@ + l));
    while i < w.len()
        invariant
            i <= w@.len(),
            all == texts(w@),
            room as nat == room_for(width as nat, indent as nat),
            filled(all.subrange(0, i as int), room as nat).line == line@,
            texts(out@) == filled(all.subrange(0, i as int), room as nat).done.map_values(|l: Seq<char>| pad@ + l),
        decreases w@.len() - i,
    {
        let ghost cur = all.subrange(0, i + 1);
        let ghost before = filled(all.subrange(0, i as int), room as nat);
        assert(cur.drop_last() =~= all.subrange(0, i as int));
        assert(cur.last() == w@[i as int]@);
        let word = w[i].as_str();
        let have: usize = line.as_str().unicode_len();
        let len: usize = word.unicode_len();
        if have == 0 {
            line = copy(word);
        } else if have < room && len < room && len <= room - have - 1 {
            line.push(' ');
            line.append(word);
            assert(line@ =~= before.line + seq![' '] + word@);
        } else {
            let ghost prev = out@;
            out.push(concat2(pad.as_str(), line.as_str()));
            assert(texts(out@) =~= texts(prev).push(pad@ + before.line));
            assert(before.done.push(before.line).map_values(|l: Seq<char>| pad@ + l) =~= before.done.map_values(
                |l: Seq<char>| pad@ + l,
            ).push(pad@ + before.line));
            line = copy(word);
        }
        i += 1;
    }
    assert(all.subrange(0, i as int) =~= all);
    let ghost f = filled(all, room as nat);
    if line.as_str().unicode_len() > 0 {
        let ghost prev = out@;
        out.push(concat2(pad.as_str(), line.as_str()));
        assert(texts(out@) =~= texts(prev).push(pad@ + f.line));
        assert(f.done.push(f.line).map_values(|l: Seq<char>| pad@ + l) =~= f.done.map_values(
            |l: Seq<char>| pad@ + l,
        ).push(pad@ + f.line));
    }
    assert(texts(out@) =~= wrapped(text@, width as nat, indent as nat));
    out
}

/// A line fits, or it is one word that is longer than the room.
pub open spec fn fits_or_is_a_word(l: Seq<char>, w: Seq<Seq<char>>, room: nat) -> bool {
    l.len() <= room || w.contains(l)
}

proof fn lemma_filled(w: Seq<Seq<char>>, room: nat)
    requires
        forall|i: int| 0 <= i < w.len() ==> (#[trigger] w[i]).len() > 0,
    ensures
        forall|i: int| 0 <= i < filled(w, room).done.len() ==> fits_or_is_a_word(#[trigger] filled(w, room).done[i], w, room),
        forall|i: int| 0 <= i < filled(w, room).done.len() ==> (#[trigger] filled(w, room).done[i]).len() > 0,
        fits_or_is_a_word(filled(w, room).line, w, room),
        w.len() > 0 ==> filled(w, room).line.len() > 0,
    decreases w.len(),
{
    if w.len() > 0 {
        let rest = w.drop_last();
        assert forall|i: int| 0 <= i < rest.len() implies (#[trigger] rest[i]).len() > 0 by {
            assert(rest[i] == w[i]);
        }
        lemma_filled(rest, room);
        let f = filled(rest, room);
        let g = filled(w, room);
        assert(w[w.len() - 1] == w.last());
        assert(w.contains(w.last()));
        assert forall|l: Seq<char>| rest.contains(l) implies w.contains(l) by {
            let k = choose|k: int| 0 <= k < rest.len() && rest[k] == l;
            assert(w[k] == l);
        }
        assert forall|i: int| 0 <= i < g.done.len() implies fits_or_is_a_word(#[trigger] g.done[i], w, room) && g.done[i].len() > 0 by {
            if i < f.done.len() {
                assert(g.done[i] == f.done[i]);
            } else {
                assert(g.done[i] == f.line);
            }
        }
    }
}

proof fn lemma_words_not_empty(s: Seq<char>)
    ensures
        forall|i: int| 0 <= i < words(s).len() ==> (#[trigger] words(s)[i]).len() > 0,
    decreases s.len(),
{
    if s.len() > 0 {
        if crate::chars::is_space(s[0]) {
            lemma_words_not_empty(s.subrange(1, s.len() as int));
            assert(words(s) == words(s.subrange(1, s.len() as int)));
        } else {
            let k = crate::chars::word_end(s, 1);
            if 0 < k <= s.len() {
                let rest = words(s.subrange(k, s.len() as int));
                lemma_words_not_empty(s.subrange(k, s.len() as int));
                assert(words(s) == seq![s.subrange(0, k)] + rest);
                assert forall|i: int| 0 <= i < words(s).len() implies (#[trigger] words(s)[i]).len() > 0 by {
                    if i > 0 {
                        assert(words(s)[i] == rest[i - 1]);
                    }
                }
            }
        }
    }
}

/// No wrapped line is wider than the indent and the room beside it, unless it
/// is a single word that does not fit: words are never broken. No line is only
/// padding. The room is what the width leaves, or one column where it leaves
/// none.
pub proof fn wrapped_lines_fit(text: Seq<char>, width: nat, indent: nat)
    ensures
        forall|i: int| 0 <= i < wrapped(text, width, indent).len() ==> {
            let l = #[trigger] wrapped(text, width, indent)[i];
            &&& l.len() > indent
            &&& l.subrange(0, indent as int) == repeated(' ', indent)
            &&& l.len() <= indent + room_for(width, indent) || words(text).contains(l.subrange(indent as int, l.len() as int))
        },
{
    let w = words(text);
    let room = room_for(width, indent);
    lemma_words_not_empty(text);
    lemma_filled(w, room);
    let f = filled(w, room);
    let ls = filled_lines(w, room);
    assert forall|i: int| 0 <= i < wrapped(text, width, indent).len() implies {
        let l = #[trigger] wrapped(text, width, indent)[i];
        &&& l.len() > indent
        &&& l.subrange(0, indent as int) == repeated(' ', indent)
        &&& l.len() <= indent + room_for(width, indent) || words(text).contains(l.subrange(indent as int, l.len() as int))
    } by {
        let l = wrapped(text, width, indent)[i];
        let bare = ls[i];
        assert(l == repeated(' ', indent) + bare);
        if i < f.done.len() {
            assert(bare == f.done[i]);
        } else {
            assert(bare == f.line);
        }
        assert(fits_or_is_a_word(bare, w, room));
        assert(l.subrange(0, indent as int) =~= repeated(' ', indent));
        assert(l.subrange(indent as int, l.len() as int) =~= bare);
    }
}

// ----------------------------------------------------------------------- tags

pub open spec fn verdict_tag_text(v: Verdict) -> Seq<char> {
    match v {
        Verdict::Good => "good"@,
        Verdict::Usable => "usable"@,
        Verdict::Slow => "slow"@,
        Verdict::WontFit => "wont_fit"@,
    }
}

/// Stable tag for a verdict, for programs to read: anything a script parses is a
/// promise to keep.
pub fn verdict_tag(v: Verdict) -> (r: &'static str)
    ensures
        r@ == verdict_tag_text(v),
{
    match v {
        Verdict::Good => "good",
        Verdict::Usable => "usable",
        Verdict::Slow => "slow",
        Verdict::WontFit => "wont_fit",
    }
}

pub open spec fn backend_tag_text(b: Backend) -> Seq<char> {
    match b {
        Backend::Cpu => "cpu"@,
        Backend::Metal => "metal"@,
        Backend::Discrete => "discrete"@,
    }
}

pub fn backend_tag(b: Backend) -> (r: &'static str)
    ensures
        r@ == backend_tag_text(b),
{
    match b {
        Backend::Cpu => "cpu",
        Backend::Metal => "metal",
        Backend::Discrete => "discrete",
    }
}

pub open spec fn bool_text(b: bool) -> Seq<char> {
    if b {
        "true"@
    } else {
        "false"@
    }
}

pub(crate) fn bool_str(b: bool) -> (r: &'static str)
    ensures
        r@ == bool_text(b),
{
    if b {
        "true"
    } else {
        "false"
    }
}

// ---------------------------------------------------------------------- width

pub open spec fn clamped_width(widest: nat) -> nat {
    if widest < 12 {
        12
    } else if widest > 28 {
        28
    } else {
        widest
    }
}

/// Width of the model column, given the widest id actually being shown.
///
/// The floor keeps the header readable; a longer id than the ceiling overflows
/// its column, because a truncated model id is not a model id.
pub fn clamp_model_width(widest: usize) -> (r: usize)
    ensures
        r as nat == clamped_width(widest as nat),
{
    if widest < 12 {
        12
    } else if widest > 28 {
        28
    } else {
        widest
    }
}

/// The longest id in bytes, where there is a row.
pub open spec fn widest_id(rows: Seq<Row>) -> usize
    decreases rows.len(),
{
    if rows.len() == 0 {
        0
    } else {
        let w = widest_id(rows.drop_last());
        let n = crate::probe::storage::byte_len(rows.last().model_id@);
        if n > w {
            n
        } else {
            w
        }
    }
}

/// Width the model column needs for these rows.
pub fn model_col_width(rows: &Vec<Row>) -> (r: usize)
    ensures
        r as nat == clamped_width(
            if rows@.len() == 0 {
                12
            } else {
                widest_id(rows@) as nat
            },
        ),
{
    if rows.len() == 0 {
        return clamp_model_width(12);
    }
    let mut widest: usize = 0;
    let mut i: usize = 0;
    while i < rows.len()
        invariant
            i <= rows@.len(),
            widest == widest_id(rows@.subrange(0, i as int)),
        decreases rows@.len() - i,
    {
        assert(rows@.subrange(0, i + 1).drop_last() =~= rows@.subrange(0, i as int));
        let n: usize = rows[i].model_id.as_str().len();
        if n > widest {
            widest = n;
        }
        i += 1;
    }
    assert(rows@.subrange(0, i as int) =~= rows@);
    clamp_model_width(widest)
}

// -------------------------------------------------------------------- ranking

pub open spec fn verdict_order(v: Verdict) -> int {
    match v {
        Verdict::Good => 0,
        Verdict::Usable => 1,
        Verdict::Slow => 2,
        Verdict::WontFit => 3,
    }
}

/// The middle of a range in whole thousandths, the faster the lower.
pub open spec fn speed_order(range: (Double, Double)) -> int {
    range.0.sum(range.1).quotient(Double { bits: TWO_BITS }).product(Double { bits: THOUSAND_BITS }).opposite().to_integer()
}

fn order_of_speed(range: (Double, Double)) -> (r: i64)
    ensures
        r as int == speed_order(range),
{
    let mid = range.0.plus(range.1).over(Double { bits: TWO_BITS });
    mid.times(Double { bits: THOUSAND_BITS }).negated().as_integer()
}

/// A sort key; lower comes first.
pub open spec fn key_below(a: (int, int, int), b: (int, int, int)) -> bool {
    a.0 < b.0 || (a.0 == b.0 && (a.1 < b.1 || (a.1 == b.1 && a.2 < b.2)))
}

pub open spec fn rank_of(p: Prediction) -> (int, int, int) {
    (verdict_order(p.verdict), speed_order(p.decode_tok_s), -(p.max_context as int))
}

/// Sort key: what you can actually run, best first.
///
/// Verdict leads because it is the answer to the question asked; then decode
/// speed, then context. Deliberately not a blended score: every term is
/// measured or derived from a measurement.
pub fn rank(row: &Row) -> (r: (u8, i64, i64))
    ensures
        (r.0 as int, r.1 as int, r.2 as int) == rank_of(row.prediction),
{
    let verdict: u8 = match row.prediction.verdict {
        Verdict::Good => 0,
        Verdict::Usable => 1,
        Verdict::Slow => 2,
        Verdict::WontFit => 3,
    };
    (verdict, order_of_speed(row.prediction.decode_tok_s), -(row.prediction.max_context as i64))
}

/// Which order the caller wants rows in.
#[derive(Debug, Clone, Copy, PartialEq, Eq, Structural)]
pub enum SortKey {
    Verdict,
    Decode,
    Context,
}

impl SortKey {
    pub open spec fn after(self) -> SortKey {
        match self {
            SortKey::Verdict => SortKey::Decode,
            SortKey::Decode => SortKey::Context,
            SortKey::Context => SortKey::Verdict,
        }
    }

    pub open spec fn label_text(self) -> Seq<char> {
        match self {
            SortKey::Verdict => "verdict"@,
            SortKey::Decode => "speed"@,
            SortKey::Context => "context"@,
        }
    }

    pub fn next(self) -> (r: SortKey)
        ensures
            r == self.after(),
    {
        match self {
            SortKey::Verdict => SortKey::Decode,
            SortKey::Decode => SortKey::Context,
            SortKey::Context => SortKey::Verdict,
        }
    }

    pub fn label(self) -> (r: &'static str)
        ensures
            r@ == self.label_text(),
    {
        match self {
            SortKey::Verdict => "verdict",
            SortKey::Decode => "speed",
            SortKey::Context => "context",
        }
    }
}

/// Cycling through the orders returns to where it started.
pub proof fn the_sort_cycle_closes(s: SortKey)
    ensures
        s.after().after().after() == s,
        s.after() != s,
{
}

/// The key for an order. Whatever is asked for, what cannot run sinks to the
/// bottom: such a row can carry a good computed speed while printing a dash.
pub open spec fn rank_for(p: Prediction, sort: SortKey) -> (int, int, int) {
    let r = rank_of(p);
    let unrunnable: int = if p.verdict == Verdict::WontFit { 1 } else { 0 };
    match sort {
        SortKey::Verdict => r,
        SortKey::Decode => (unrunnable, r.1, r.2),
        SortKey::Context => (unrunnable, r.2, r.1),
    }
}

/// `rank`, but selectable. `Verdict` is exactly what `rank` gives.
pub fn rank_by(row: &Row, sort: SortKey) -> (r: (u8, i64, i64))
    ensures
        (r.0 as int, r.1 as int, r.2 as int) == rank_for(row.prediction, sort),
{
    let (v, d, c) = rank(row);
    let unrunnable: u8 = match row.prediction.verdict {
        Verdict::WontFit => 1,
        _ => 0,
    };
    match sort {
        SortKey::Verdict => (v, d, c),
        SortKey::Decode => (unrunnable, d, c),
        SortKey::Context => (unrunnable, c, d),
    }
}

/// In every order, a row that runs comes before one that does not.
pub proof fn what_cannot_run_sinks(a: Prediction, b: Prediction, sort: SortKey)
    requires
        a.verdict != Verdict::WontFit,
        b.verdict == Verdict::WontFit,
    ensures
        key_below(rank_for(a, sort), rank_for(b, sort)),
{
}

/// Row `a` is listed before row `b`: its key is lower, or as low and it came
/// earlier.
pub open spec fn ranked_before(rows: Seq<Row>, idx: Seq<usize>, sort: SortKey) -> spec_fn(int, int) -> bool {
    |a: int, b: int|
        {
            let x = rank_for(rows[idx[a] as int].prediction, sort);
            let y = rank_for(rows[idx[b] as int].prediction, sort);
            key_below(x, y) || (x == y && a < b)
        }
}

struct ByRank<'a> {
    rows: &'a Vec<Row>,
    idx: &'a Vec<usize>,
    sort: SortKey,
}

/// Every position is one of a row.
pub open spec fn valid_positions(idx: Seq<usize>, n: nat) -> bool {
    forall|i: int| 0 <= i < idx.len() ==> (#[trigger] idx[i]) < n
}

impl Sorter for ByRank<'_> {
    closed spec fn size(&self) -> nat {
        if valid_positions(self.idx@, self.rows@.len()) {
            self.idx@.len()
        } else {
            0
        }
    }

    closed spec fn rule(&self) -> spec_fn(int, int) -> bool {
        ranked_before(self.rows@, self.idx@, self.sort)
    }

    fn comes_before(&self, a: usize, b: usize) -> (r: bool) {
        let (x0, x1, x2) = rank_by(&self.rows[self.idx[a]], self.sort);
        let (y0, y1, y2) = rank_by(&self.rows[self.idx[b]], self.sort);
        x0 < y0 || (x0 == y0 && (x1 < y1 || (x1 == y1 && (x2 < y2 || (x2 == y2 && a < b)))))
    }

    proof fn rule_is_total(&self) {
    }
}

/// The positions `idx` picked in the order `o`.
pub open spec fn picked(idx: Seq<usize>, o: Seq<usize>) -> Seq<usize> {
    o.map_values(|k: usize| idx[k as int])
}

/// `r` holds the rows of `idx` in order.
pub open spec fn is_ranked(r: Seq<usize>, rows: Seq<Row>, idx: Seq<usize>, sort: SortKey) -> bool {
    exists|o: Seq<usize>| in_order(o, idx.len(), ranked_before(rows, idx, sort)) && r == #[trigger] picked(idx, o)
}

/// The rows at `idx` in order, those with equal keys as they came.
pub fn sort_rows(rows: &Vec<Row>, idx: &Vec<usize>, sort: SortKey) -> (r: Vec<usize>)
    requires
        valid_positions(idx@, rows@.len()),
    ensures
        is_ranked(r@, rows@, idx@, sort),
        valid_positions(r@, rows@.len()),
        r@.len() == idx@.len(),
{
    let o = sort_positions(&ByRank { rows, idx, sort }, idx.len());
    let mut out: Vec<usize> = Vec::new();
    let mut i: usize = 0;
    while i < o.len()
        invariant
            i <= o@.len(),
            o@.len() == idx@.len(),
            in_order(o@, idx@.len(), ranked_before(rows@, idx@, sort)),
            valid_positions(idx@, rows@.len()),
            out@ =~= picked(idx@, o@.subrange(0, i as int)),
            valid_positions(out@, rows@.len()),
        decreases o@.len() - i,
    {
        assert(o@[i as int] < idx@.len());
        out.push(idx[o[i]]);
        i += 1;
    }
    assert(o@.subrange(0, i as int) =~= o@);
    assert(out@ == picked(idx@, o@));
    out
}

/// The rows of a whole report in order.
pub fn sort_all(rows: &Vec<Row>, sort: SortKey) -> (r: Vec<usize>)
    ensures
        is_ranked(r@, rows@, all_positions(rows@.len()), sort),
        valid_positions(r@, rows@.len()),
        r@.len() == rows@.len(),
{
    let idx = positions(rows.len());
    sort_rows(rows, &idx, sort)
}

/// All positions below `n`.
pub open spec fn all_positions(n: nat) -> Seq<usize> {
    Seq::new(n, |i: int| i as usize)
}

pub(crate) fn positions(n: usize) -> (r: Vec<usize>)
    ensures
        r@ == all_positions(n as nat),
        valid_positions(r@, n as nat),
{
    let mut v: Vec<usize> = Vec::new();
    let mut i: usize = 0;
    while i < n
        invariant
            i <= n,
            v@ =~= all_positions(i as nat),
        decreases n - i,
    {
        v.push(i);
        i += 1;
    }
    v
}

// ------------------------------------------------------------- one per model

/// `a` is the better version of a model than `b`: a better verdict, or as good
/// a one on a larger file. Bytes per parameter is fidelity, which is
/// arithmetic and no opinion.
pub open spec fn better(a: Row, b: Row) -> bool {
    let x = verdict_order(a.prediction.verdict);
    let y = verdict_order(b.prediction.verdict);
    x < y || (x == y && a.quant.bytes > b.quant.bytes)
}

/// The first of the positions that is of the same model as `row`.
pub open spec fn model_at(rows: Seq<Row>, best: Seq<usize>, row: Row) -> Option<int>
    decreases best.len(),
{
    if best.len() == 0 {
        None
    } else {
        match model_at(rows, best.drop_last(), row) {
            Some(i) => Some(i),
            None => if rows[best.last() as int].model_id@ == row.model_id@ {
                Some(best.len() - 1)
            } else {
                None
            },
        }
    }
}

/// One position per model, in the order the models came up: the best version
/// of each.
pub open spec fn best_of(rows: Seq<Row>, idx: Seq<usize>) -> Seq<usize>
    decreases idx.len(),
{
    if idx.len() == 0 {
        idx
    } else {
        let rest = best_of(rows, idx.drop_last());
        let row = rows[idx.last() as int];
        match model_at(rows, rest, row) {
            None => rest.push(idx.last()),
            Some(p) => if better(row, rows[rest[p] as int]) {
                rest.update(p, idx.last())
            } else {
                rest
            },
        }
    }
}

pub proof fn lemma_model_at(rows: Seq<Row>, best: Seq<usize>, row: Row)
    ensures
        match model_at(rows, best, row) {
            Some(p) => 0 <= p < best.len() && rows[best[p] as int].model_id@ == row.model_id@,
            None => forall|i: int| 0 <= i < best.len() ==> rows[(#[trigger] best[i]) as int].model_id@ != row.model_id@,
        },
    decreases best.len(),
{
    if best.len() > 0 {
        lemma_model_at(rows, best.drop_last(), row);
        if model_at(rows, best, row) is None {
            assert forall|i: int| 0 <= i < best.len() implies rows[(#[trigger] best[i]) as int].model_id@ != row.model_id@ by {
                if i < best.len() - 1 {
                    assert(best.drop_last()[i] == best[i]);
                }
            }
        }
    }
}

proof fn lemma_model_at_stays(rows: Seq<Row>, best: Seq<usize>, k: int, row: Row)
    requires
        0 <= k <= best.len(),
        model_at(rows, best.subrange(0, k), row) is Some,
    ensures
        model_at(rows, best, row) == model_at(rows, best.subrange(0, k), row),
    decreases best.len() - k,
{
    if k < best.len() {
        assert(best.drop_last().subrange(0, k) =~= best.subrange(0, k));
        lemma_model_at_stays(rows, best.drop_last(), k, row);
    } else {
        assert(best.subrange(0, k) =~= best);
    }
}

/// Collapsing keeps one row per model, only rows that were there, and of each
/// model none that another version of it is better than.
pub proof fn one_best_row_per_model(rows: Seq<Row>, idx: Seq<usize>)
    requires
        valid_positions(idx, rows.len()),
    ensures
        valid_positions(best_of(rows, idx), rows.len()),
        forall|i: int, j: int|
            0 <= i < best_of(rows, idx).len() && 0 <= j < best_of(rows, idx).len() && i != j ==> rows[(
            #[trigger] best_of(rows, idx)[i]) as int].model_id@ != rows[(#[trigger] best_of(rows, idx)[j]) as int].model_id@,
        forall|i: int| 0 <= i < best_of(rows, idx).len() ==> idx.contains(#[trigger] best_of(rows, idx)[i]),
        forall|k: int| 0 <= k < idx.len() ==> kept(rows, best_of(rows, idx), #[trigger] idx[k]),
    decreases idx.len(),
{
    if idx.len() > 0 {
        let init = idx.drop_last();
        assert forall|i: int| 0 <= i < init.len() implies (#[trigger] init[i]) < rows.len() by {
            assert(init[i] == idx[i]);
        }
        one_best_row_per_model(rows, init);
        let rest = best_of(rows, init);
        let row = rows[idx.last() as int];
        let r = best_of(rows, idx);
        lemma_model_at(rows, rest, row);
        assert(idx[idx.len() - 1] == idx.last());
        assert forall|i: int| 0 <= i < r.len() implies idx.contains(#[trigger] r[i]) && r[i] < rows.len() by {
            if i < rest.len() && r[i] == rest[i] {
                assert(init.contains(rest[i]));
                let k = choose|k: int| 0 <= k < init.len() && init[k] == rest[i];
                assert(idx[k] == r[i]);
            } else {
                assert(idx[idx.len() - 1] == r[i]);
            }
        }
        assert forall|k: int| 0 <= k < idx.len() implies kept(rows, r, #[trigger] idx[k]) by {
            if k < idx.len() - 1 {
                assert(init[k] == idx[k]);
                assert(kept(rows, rest, init[k]));
                let p = choose|p: int|
                    0 <= p < rest.len() && rows[(#[trigger] rest[p]) as int].model_id@ == rows[idx[k] as int].model_id@
                        && !better(rows[idx[k] as int], rows[rest[p] as int]);
                assert(rows[r[p] as int].model_id@ == rows[idx[k] as int].model_id@);
                assert(!better(rows[idx[k] as int], rows[r[p] as int]));
            } else {
                match model_at(rows, rest, row) {
                    Some(p) => {
                        assert(rows[r[p] as int].model_id@ == row.model_id@);
                        assert(!better(row, rows[r[p] as int]));
                    },
                    None => {
                        assert(r[rest.len() as int] == idx.last());
                        assert(!better(row, rows[r[rest.len() as int] as int]));
                    },
                }
            }
        }
    }
}

/// The model of the row at `i` is among the kept ones, by a row it is no
/// better than.
pub open spec fn kept(rows: Seq<Row>, best: Seq<usize>, i: usize) -> bool {
    exists|p: int|
        0 <= p < best.len() && rows[(#[trigger] best[p]) as int].model_id@ == rows[i as int].model_id@ && !better(
            rows[i as int],
            rows[best[p] as int],
        )
}

/// The first row of the same model as `row`.
pub open spec fn row_at(best: Seq<Row>, row: Row) -> Option<int>
    decreases best.len(),
{
    if best.len() == 0 {
        None
    } else {
        match row_at(best.drop_last(), row) {
            Some(i) => Some(i),
            None => if best.last().model_id@ == row.model_id@ {
                Some(best.len() - 1)
            } else {
                None
            },
        }
    }
}

/// One row per model, in the order the models came up: the best version of
/// each.
pub open spec fn best_rows(rows: Seq<Row>) -> Seq<Row>
    decreases rows.len(),
{
    if rows.len() == 0 {
        rows
    } else {
        let rest = best_rows(rows.drop_last());
        let row = rows.last();
        match row_at(rest, row) {
            None => rest.push(row),
            Some(p) => if better(row, rest[p]) {
                rest.update(p, row)
            } else {
                rest
            },
        }
    }
}

proof fn lemma_row_at(rows: Seq<Row>, idx: Seq<usize>, row: Row)
    ensures
        row_at(idx.map_values(|i: usize| rows[i as int]), row) == model_at(rows, idx, row),
    decreases idx.len(),
{
    let m = idx.map_values(|i: usize| rows[i as int]);
    if idx.len() > 0 {
        lemma_row_at(rows, idx.drop_last(), row);
        assert(m.drop_last() =~= idx.drop_last().map_values(|i: usize| rows[i as int]));
    }
}

proof fn lemma_best_rows(rows: Seq<Row>, n: int)
    requires
        0 <= n <= rows.len(),
        rows.len() <= usize::MAX,
    ensures
        best_rows(rows.subrange(0, n)) == best_of(rows, all_positions(n as nat)).map_values(|i: usize| rows[i as int]),
    decreases n,
{
    let at = |i: usize| rows[i as int];
    if n == 0 {
        assert(best_rows(rows.subrange(0, 0)) =~= best_of(rows, all_positions(0)).map_values(at));
    } else {
        lemma_best_rows(rows, n - 1);
        assert(rows.subrange(0, n).drop_last() =~= rows.subrange(0, n - 1));
        assert(all_positions(n as nat).drop_last() =~= all_positions((n - 1) as nat));
        assert(all_positions(n as nat).last() == (n - 1) as usize);
        let rest = best_of(rows, all_positions((n - 1) as nat));
        lemma_row_at(rows, rest, rows[n - 1]);
        lemma_model_at(rows, rest, rows[n - 1]);
        assert(best_rows(rows.subrange(0, n)) =~= best_of(rows, all_positions(n as nat)).map_values(at));
    }
}

/// Collapsing rows and collapsing positions keep the same rows: no surface
/// shows another best version of a model than the next.
pub proof fn both_ways_keep_the_same_rows(rows: Seq<Row>)
    requires
        rows.len() <= usize::MAX,
    ensures
        best_rows(rows) == best_of(rows, all_positions(rows.len())).map_values(|i: usize| rows[i as int]),
{
    assert(rows.subrange(0, rows.len() as int) =~= rows);
    lemma_best_rows(rows, rows.len() as int);
}

fn find_row(best: &Vec<Row>, row: &Row) -> (r: Option<usize>)
    ensures
        match r {
            Some(i) => row_at(best@, *row) == Some(i as int) && i < best@.len(),
            None => row_at(best@, *row) is None,
        },
{
    let mut i: usize = 0;
    assert(best@.subrange(0, 0) =~= Seq::<Row>::empty());
    while i < best.len()
        invariant
            i <= best@.len(),
            row_at(best@.subrange(0, i as int), *row) is None,
        decreases best@.len() - i,
    {
        assert(best@.subrange(0, i + 1).drop_last() =~= best@.subrange(0, i as int));
        if same(best[i].model_id.as_str(), row.model_id.as_str()) {
            proof {
                lemma_row_at_stays(best@, i + 1, *row);
            }
            return Some(i);
        }
        i += 1;
    }
    assert(best@.subrange(0, i as int) =~= best@);
    None
}

proof fn lemma_row_at_stays(best: Seq<Row>, n: int, row: Row)
    requires
        0 <= n <= best.len(),
        row_at(best.subrange(0, n), row) is Some,
    ensures
        row_at(best, row) == row_at(best.subrange(0, n), row),
    decreases best.len() - n,
{
    if n < best.len() {
        assert(best.drop_last().subrange(0, n) =~= best.subrange(0, n));
        lemma_row_at_stays(best.drop_last(), n, row);
    } else {
        assert(best.subrange(0, n) =~= best);
    }
}

/// Keep one row per model: the highest-fidelity quantisation this machine
/// still runs as well as it runs any of them.
pub fn best_per_model(rows: Vec<Row>) -> (r: Vec<Row>)
    ensures
        r@ == best_rows(rows@),
{
    let ghost all = rows@;
    let mut left = rows;
    let mut taken: Vec<Row> = Vec::new();
    while left.len() > 0
        invariant
            left@.len() + taken@.len() == all.len(),
            left@ == all.subrange(0, left@.len() as int),
            forall|i: int| 0 <= i < taken@.len() ==> (#[trigger] taken@[i]) == all[all.len() - 1 - i],
        decreases left@.len(),
    {
        if let Some(row) = left.pop() {
            assert(left@ =~= all.subrange(0, left@.len() as int));
            taken.push(row);
        }
    }
    let mut best: Vec<Row> = Vec::new();
    assert(best@ =~= best_rows(all.subrange(0, 0)));
    while taken.len() > 0
        invariant
            taken@.len() <= all.len(),
            forall|i: int| 0 <= i < taken@.len() ==> (#[trigger] taken@[i]) == all[all.len() - 1 - i],
            best@ == best_rows(all.subrange(0, all.len() - taken@.len())),
        decreases taken@.len(),
    {
        let ghost k = all.len() - taken@.len();
        if let Some(row) = taken.pop() {
            assert(row == all[k]);
            assert(all.subrange(0, k + 1).drop_last() =~= all.subrange(0, k));
            match find_row(&best, &row) {
                None => best.push(row),
                Some(p) => {
                    if is_better(&row, &best[p]) {
                        best.set(p, row);
                    }
                },
            }
        }
    }
    assert(all.subrange(0, all.len() as int) =~= all);
    best
}

fn is_better(a: &Row, b: &Row) -> (r: bool)
    ensures
        r == better(*a, *b),
{
    let (x, _, _) = rank(a);
    let (y, _, _) = rank(b);
    x < y || (x == y && a.quant.bytes > b.quant.bytes)
}

/// Keep one position per model: the highest-fidelity quantisation this machine
/// still runs as well as it runs any of them.
pub fn best_per_model_indices(rows: &Vec<Row>, idx: &Vec<usize>) -> (r: Vec<usize>)
    requires
        valid_positions(idx@, rows@.len()),
    ensures
        r@ == best_of(rows@, idx@),
        valid_positions(r@, rows@.len()),
{
    let mut best: Vec<usize> = Vec::new();
    let mut i: usize = 0;
    assert(idx@.subrange(0, 0) =~= best@);
    while i < idx.len()
        invariant
            i <= idx@.len(),
            valid_positions(idx@, rows@.len()),
            best@ == best_of(rows@, idx@.subrange(0, i as int)),
            valid_positions(best@, rows@.len()),
        decreases idx@.len() - i,
    {
        let ghost cur = idx@.subrange(0, i + 1);
        assert(cur.drop_last() =~= idx@.subrange(0, i as int));
        assert(cur.last() == idx@[i as int]);
        let k: usize = idx[i];
        assert(k < rows@.len());
        let ghost row = rows@[k as int];
        let mut p: usize = 0;
        while p < best.len() && !same(rows[best[p]].model_id.as_str(), rows[k].model_id.as_str())
            invariant
                p <= best@.len(),
                k < rows@.len(),
                row == rows@[k as int],
                valid_positions(best@, rows@.len()),
                model_at(rows@, best@.subrange(0, p as int), row) is None,
            decreases best@.len() - p,
        {
            assert(best@.subrange(0, p + 1).drop_last() =~= best@.subrange(0, p as int));
            assert(best@.subrange(0, p + 1).last() == best@[p as int]);
            p += 1;
            assert(p < best@.len() ==> best@[p as int] < rows@.len());
        }
        if p < best.len() {
            proof {
                assert(best@.subrange(0, p + 1).drop_last() =~= best@.subrange(0, p as int));
                assert(best@.subrange(0, p + 1).last() == best@[p as int]);
                lemma_model_at_stays(rows@, best@, p + 1, row);
            }
            if is_better(&rows[k], &rows[best[p]]) {
                best.set(p, k);
            }
        } else {
            assert(best@.subrange(0, p as int) =~= best@);
            best.push(k);
        }
        i += 1;
    }
    assert(idx@.subrange(0, i as int) =~= idx@);
    best
}

// ----------------------------------------------------------------- formatting

pub open spec fn speed_text(p: Prediction) -> Seq<char> {
    if p.verdict == Verdict::WontFit {
        "-"@
    } else {
        p.decode_tok_s.0.text(1) + "-"@ + p.decode_tok_s.1.text(1)
    }
}

/// How a decode range is written.
pub fn fmt_speed(p: &Prediction) -> (r: String)
    ensures
        r@ == speed_text(*p),
{
    match p.verdict {
        Verdict::WontFit => copy("-"),
        _ => concat3(p.decode_tok_s.0.fixed(1).as_str(), "-", p.decode_tok_s.1.fixed(1).as_str()),
    }
}

/// A context length as it is shown: in thousands of 1024 from there on.
pub open spec fn context_text(ctx: nat) -> Seq<char> {
    if ctx >= 1024 {
        dec(ctx / 1024) + "K"@
    } else {
        dec(ctx)
    }
}

pub fn fmt_context(ctx: u32) -> (r: String)
    ensures
        r@ == context_text(ctx as nat),
{
    if ctx >= 1024 {
        concat2(decimal((ctx / 1024) as u128).as_str(), "K")
    } else {
        decimal(ctx as u128)
    }
}

pub open spec fn ctx_text(p: Prediction) -> Seq<char> {
    if p.max_context == 0 {
        "-"@
    } else {
        context_text(p.max_context as nat)
    }
}

pub fn fmt_ctx(p: &Prediction) -> (r: String)
    ensures
        r@ == ctx_text(*p),
{
    if p.max_context == 0 {
        copy("-")
    } else {
        fmt_context(p.max_context)
    }
}

pub open spec fn ttft_text(p: Prediction) -> Seq<char> {
    match p.ttft_s {
        Some(t) => if t.below(Double { bits: 0x4059_0000_0000_0000 }) {
            t.text(1) + "s"@
        } else {
            t.text(0) + "s"@
        },
        None => "-"@,
    }
}

/// The wait for the first token: one decimal below a hundred seconds. Unknown
/// until a real run has been measured on this backend, and then a dash.
pub fn fmt_ttft(p: &Prediction) -> (r: String)
    ensures
        r@ == ttft_text(*p),
{
    match p.ttft_s {
        Some(t) => if t.lt(Double { bits: 0x4059_0000_0000_0000 }) {
            concat2(t.fixed(1).as_str(), "s")
        } else {
            concat2(t.fixed(0).as_str(), "s")
        },
        None => copy("-"),
    }
}

/// The share in memory below which a row counts as spilling: 0.999.
pub const RESIDENT_BITS: u64 = 0x3FEF_F7CE_D916_872B;

pub open spec fn spills(fraction: Double) -> bool {
    fraction.below(Double { bits: RESIDENT_BITS })
}

pub open spec fn resident_text(p: Prediction) -> Seq<char> {
    if spills(p.resident_fraction) {
        p.resident_fraction.in_percent().text(0) + "%"@
    } else {
        Seq::empty()
    }
}

/// Blank when everything is resident: the eye should land on the rows that
/// spill.
pub fn fmt_resident(p: &Prediction) -> (r: String)
    ensures
        r@ == resident_text(*p),
{
    if p.resident_fraction.lt(Double { bits: RESIDENT_BITS }) {
        concat2(p.resident_fraction.percent().fixed(0).as_str(), "%")
    } else {
        String::new()
    }
}

} // verus!
