//! Calibration records, and the coefficients fitted from them.
//!
//! Every real run leaves one implied efficiency. A pile of those becomes the
//! coefficients a prediction uses, and an honest range around them.
//!
//! The median, not the mean: a run on a throttled machine is arbitrarily slow,
//! and nothing makes one arbitrarily fast. The median absolute deviation, not
//! the standard deviation, for the same reason.

pub mod evidence;
pub mod laws;
pub mod median;

use vstd::prelude::*;
use crate::chars::{concat3, copy, ends, ends_with, lines, lines_of, same, texts, trim, trimmed, uppercase};
use crate::double::{Double, ONE_BITS, TWO_BITS};
use crate::group::{group, grouped, items_of, Group};
use crate::json;
use crate::json::{boolean_at, number_at, string_at};
use crate::order::{in_order, sort_positions, strict_total, Sorter, text_below, text_less};
use crate::spec::{family_of_label, QuantFamily};

verus! {

/// One measurement, read from a line of a calibration file.
pub struct Record {
    pub hw: String,
    pub backend: String,
    pub model: String,
    pub quant: String,
    /// `none` on bare metal; `wsl2`, `container` or `hypervisor` otherwise.
    /// Older records lack the field, which a [`Gate`](crate::gate::Gate) treats as unknown rather
    /// than assuming bare metal.
    pub virt: Option<String>,
    pub quant_family: QuantFamily,
    pub implied_eta: Double,
    /// Signed error of the published range midpoint at the moment the
    /// prediction was made. Absent in older records.
    pub error_pct: Option<Double>,
    /// Whether the measurement landed inside the range that was published.
    pub within_range: Option<bool>,
    /// Measured prefill throughput against the machine's own measured f32
    /// peak. It routinely exceeds 1: it is a ratio of devices and paths.
    pub implied_prefill_scale: Option<Double>,
}

/// What a [`Record`] holds.
pub struct RecordView {
    pub hw: Seq<char>,
    pub backend: Seq<char>,
    pub model: Seq<char>,
    pub quant: Seq<char>,
    pub virt: Option<Seq<char>>,
    pub quant_family: QuantFamily,
    pub implied_eta: Double,
    pub error_pct: Option<Double>,
    pub within_range: Option<bool>,
    pub implied_prefill_scale: Option<Double>,
}

/// The text of an optional string.
pub open spec fn opt_text(o: Option<String>) -> Option<Seq<char>> {
    match o {
        Some(s) => Some(s@),
        None => None,
    }
}

impl View for Record {
    type V = RecordView;

    open spec fn view(&self) -> RecordView {
        RecordView {
            hw: self.hw@,
            backend: self.backend@,
            model: self.model@,
            quant: self.quant@,
            virt: opt_text(self.virt),
            quant_family: self.quant_family,
            implied_eta: self.implied_eta,
            error_pct: self.error_pct,
            within_range: self.within_range,
            implied_prefill_scale: self.implied_prefill_scale,
        }
    }
}

/// `d` where it is finite.
pub open spec fn only_finite(d: Option<Double>) -> Option<Double> {
    match d {
        Some(x) => if x.finite() {
            Some(x)
        } else {
            None
        },
        None => None,
    }
}

/// `d` where it is finite and above zero.
pub open spec fn only_positive(d: Option<Double>) -> Option<Double> {
    match d {
        Some(x) => if x.finite() && x.rank() > 0 {
            Some(x)
        } else {
            None
        },
        None => None,
    }
}

fn keep_finite(d: Option<Double>) -> (r: Option<Double>)
    ensures
        r == only_finite(d),
{
    match d {
        Some(x) => if x.is_finite() {
            Some(x)
        } else {
            None
        },
        None => None,
    }
}

fn keep_positive(d: Option<Double>) -> (r: Option<Double>)
    ensures
        r == only_positive(d),
{
    match d {
        Some(x) => if x.is_finite() && x.order() > 0 {
            Some(x)
        } else {
            None
        },
        None => None,
    }
}

/// What a line says, if it is a record: it names its machine, backend and
/// quantisation, and states the implied efficiency. An error that is not
/// finite, or a prefill scale that is not a positive number, is as good as
/// none.
pub open spec fn record_in(line: Seq<char>) -> Option<RecordView> {
    match (
        string_at(line, "quant"@),
        string_at(line, "hw"@),
        string_at(line, "backend"@),
        number_at(line, "implied_eta"@),
    ) {
        (Some(quant), Some(hw), Some(backend), Some(implied_eta)) => Some(
            RecordView {
                hw,
                backend,
                model: match string_at(line, "model"@) {
                    Some(m) => m,
                    None => Seq::empty(),
                },
                quant,
                virt: string_at(line, "virt"@),
                quant_family: family_of_label(uppercase(quant)),
                implied_eta,
                error_pct: only_finite(number_at(line, "error_pct"@)),
                within_range: boolean_at(line, "within_range"@),
                implied_prefill_scale: only_positive(number_at(line, "implied_prefill_scale"@)),
            },
        ),
        _ => None,
    }
}

/// The records of the lines, in order, without the lines that are none.
pub open spec fn records_in(lines: Seq<Seq<char>>) -> Seq<RecordView>
    decreases lines.len(),
{
    if lines.len() == 0 {
        Seq::empty()
    } else {
        let rest = records_in(lines.drop_last());
        match record_in(lines.last()) {
            Some(r) => if trim(lines.last()).len() > 0 {
                rest.push(r)
            } else {
                rest
            },
            None => rest,
        }
    }
}

pub open spec fn record_views(v: Seq<Record>) -> Seq<RecordView> {
    v.map_values(|r: Record| r@)
}

/// One line of a calibration file.
pub fn parse_record(line: &str) -> (r: Option<Record>)
    ensures
        match r {
            Some(x) => record_in(line@) == Some(x@),
            None => record_in(line@) is None,
        },
{
    let quant = match json::string(line, "quant") {
        Some(s) => s,
        None => return None,
    };
    let hw = match json::string(line, "hw") {
        Some(s) => s,
        None => return None,
    };
    let backend = match json::string(line, "backend") {
        Some(s) => s,
        None => return None,
    };
    let implied_eta = match json::number(line, "implied_eta") {
        Some(s) => s,
        None => return None,
    };
    let model = match json::string(line, "model") {
        Some(s) => s,
        None => String::new(),
    };
    let quant_family = QuantFamily::from_gguf_label(quant.as_str());
    let virt = json::string(line, "virt");
    let error_pct = keep_finite(json::number(line, "error_pct"));
    let within_range = json::boolean(line, "within_range");
    let implied_prefill_scale = keep_positive(json::number(line, "implied_prefill_scale"));
    Some(
        Record {
            hw,
            backend,
            model,
            quant,
            virt,
            quant_family,
            implied_eta,
            error_pct,
            within_range,
            implied_prefill_scale,
        },
    )
}

/// Every record of a calibration file.
pub fn parse_records(text: &str) -> (r: Vec<Record>)
    ensures
        record_views(r@) == records_in(lines(text@)),
{
    let all = lines_of(text);
    let mut out: Vec<Record> = Vec::new();
    let mut i: usize = 0;
    assert(record_views(out@) =~= records_in(texts(all@).subrange(0, 0)));
    while i < all.len()
        invariant
            i <= all@.len(),
            texts(all@) == lines(text@),
            record_views(out@) == records_in(texts(all@).subrange(0, i as int)),
        decreases all@.len() - i,
    {
        let ghost cur = texts(all@).subrange(0, i + 1);
        assert(cur.drop_last() =~= texts(all@).subrange(0, i as int));
        assert(cur.last() == all@[i as int]@);
        let ghost prev = out@;
        let t = trimmed(all[i].as_str());
        if t.as_str().unicode_len() > 0 {
            if let Some(rec) = parse_record(all[i].as_str()) {
                out.push(rec);
                assert(record_views(out@) =~= record_views(prev).push(rec@));
            }
        }
        i += 1;
    }
    assert(texts(all@).subrange(0, i as int) =~= texts(all@));
    out
}

// ---------------------------------------------------------------- confidence

/// How much evidence stands behind a fitted coefficient.
#[derive(Debug, Clone, Copy, PartialEq, Eq, Structural)]
pub enum Confidence {
    /// Enough samples that the range is genuinely narrow.
    High,
    Medium,
    Low,
    /// No matching samples at all: the shipped prior, widest range.
    Prior,
}

impl Confidence {
    pub open spec fn of_count(n: nat) -> Confidence {
        if n == 0 {
            Confidence::Prior
        } else if n <= 7 {
            Confidence::Low
        } else if n <= 29 {
            Confidence::Medium
        } else {
            Confidence::High
        }
    }

    pub open spec fn label_text(self) -> Seq<char> {
        match self {
            Confidence::High => "high"@,
            Confidence::Medium => "medium"@,
            Confidence::Low => "low"@,
            Confidence::Prior => "prior"@,
        }
    }

    pub open spec fn min_spread_bits(self) -> u64 {
        match self {
            Confidence::High => 0x3FB4_7AE1_47AE_147B,
            Confidence::Medium => 0x3FC3_3333_3333_3333,
            Confidence::Low => 0x3FD0_0000_0000_0000,
            Confidence::Prior => 0x3FD9_9999_9999_999A,
        }
    }

    /// Sample counts at which the range may narrow. The thresholds are
    /// conservative: a confident wrong number costs more than a wide range.
    pub fn from_count(n: usize) -> (r: Confidence)
        ensures
            r == Confidence::of_count(n as nat),
    {
        if n == 0 {
            Confidence::Prior
        } else if n <= 7 {
            Confidence::Low
        } else if n <= 29 {
            Confidence::Medium
        } else {
            Confidence::High
        }
    }

    /// Minimum half-width of the published range, as a fraction: 0.08 for high
    /// confidence, 0.15 for medium, 0.25 for low and 0.40 for the prior.
    ///
    /// A floor, not the value: a wider observed spread wins.
    pub fn min_spread(self) -> (r: Double)
        ensures
            r.bits == self.min_spread_bits(),
    {
        match self {
            Confidence::High => Double { bits: 0x3FB4_7AE1_47AE_147B },
            Confidence::Medium => Double { bits: 0x3FC3_3333_3333_3333 },
            Confidence::Low => Double { bits: 0x3FD0_0000_0000_0000 },
            Confidence::Prior => Double { bits: 0x3FD9_9999_9999_999A },
        }
    }

    pub fn label(self) -> (r: &'static str)
        ensures
            r@ == self.label_text(),
    {
        match self {
            Confidence::High => "high",
            Confidence::Medium => "medium",
            Confidence::Low => "low",
            Confidence::Prior => "prior",
        }
    }
}

/// How good a confidence is, the better the lower.
pub open spec fn tier(c: Confidence) -> int {
    match c {
        Confidence::High => 0,
        Confidence::Medium => 1,
        Confidence::Low => 2,
        Confidence::Prior => 3,
    }
}

/// More samples never lower the confidence, and a better confidence never has
/// a wider floor.
pub proof fn evidence_narrows_the_range(a: nat, b: nat)
    requires
        a <= b,
    ensures
        tier(Confidence::of_count(b)) <= tier(Confidence::of_count(a)),
        (Double { bits: Confidence::of_count(b).min_spread_bits() }).at_most(
            Double { bits: Confidence::of_count(a).min_spread_bits() },
        ),
{
}

// ------------------------------------------------------------------ grouping

/// A value that counts, with the weight family it was measured on and the
/// position of its record.
#[derive(Debug, Clone, Copy, PartialEq, Eq, Structural)]
pub struct Sample {
    pub value: Double,
    pub family: QuantFamily,
    pub record: usize,
}

/// An efficiency that can be real: above zero, and no more than all of the
/// machine's measured bandwidth. Anything else is a corrupt record.
pub open spec fn plausible_eta(d: Double) -> bool {
    d.finite() && d.rank() > 0 && d.rank() <= 0x3FF0_0000_0000_0000
}

/// A prefill scale that can be real: above zero and below a thousand.
pub open spec fn plausible_prefill(d: Option<Double>) -> bool {
    d matches Some(x) && x.finite() && x.rank() > 0 && x.rank() < 0x408F_4000_0000_0000
}

pub open spec fn bucket_key(backend: Seq<char>, family: QuantFamily) -> Seq<char> {
    backend + "/"@ + family.tag_text()
}

/// The positions below `n` of the records whose efficiency counts.
pub open spec fn eta_positions(records: Seq<Record>, n: nat) -> Seq<int>
    decreases n,
{
    if n == 0 {
        Seq::empty()
    } else {
        let rest = eta_positions(records, (n - 1) as nat);
        if plausible_eta(records[n - 1].implied_eta) {
            rest.push(n - 1)
        } else {
            rest
        }
    }
}

/// The positions below `n` of the records whose prefill scale counts.
pub open spec fn prefill_positions(records: Seq<Record>, n: nat) -> Seq<int>
    decreases n,
{
    if n == 0 {
        Seq::empty()
    } else {
        let rest = prefill_positions(records, (n - 1) as nat);
        if plausible_prefill(records[n - 1].implied_prefill_scale) {
            rest.push(n - 1)
        } else {
            rest
        }
    }
}

pub open spec fn bucket_keys(records: Seq<Record>, at: Seq<int>) -> Seq<Seq<char>> {
    at.map_values(|i: int| bucket_key(records[i].backend@, records[i].quant_family))
}

pub open spec fn backend_keys(records: Seq<Record>, at: Seq<int>) -> Seq<Seq<char>> {
    at.map_values(|i: int| records[i].backend@)
}

pub open spec fn eta_samples(records: Seq<Record>, at: Seq<int>) -> Seq<Sample> {
    at.map_values(
        |i: int| (Sample { value: records[i].implied_eta, family: records[i].quant_family, record: i as usize }),
    )
}

pub open spec fn prefill_samples(records: Seq<Record>, at: Seq<int>) -> Seq<Sample> {
    at.map_values(
        |i: int|
            (Sample {
                value: records[i].implied_prefill_scale->0,
                family: records[i].quant_family,
                record: i as usize,
            }),
    )
}

/// The runs that count, put together three ways: by backend and family, by
/// backend for families never measured there, and by backend for prefill.
pub struct Groups {
    pub buckets: Vec<Group<Sample>>,
    pub parents: Vec<Group<Sample>>,
    pub prefill: Vec<Group<Sample>>,
}

impl Groups {
    pub open spec fn are_those_of(self, records: Seq<Record>) -> bool {
        let e = eta_positions(records, records.len());
        let p = prefill_positions(records, records.len());
        &&& grouped(self.buckets@, bucket_keys(records, e), eta_samples(records, e))
        &&& grouped(self.parents@, backend_keys(records, e), eta_samples(records, e))
        &&& grouped(self.prefill@, backend_keys(records, p), prefill_samples(records, p))
    }
}

fn bucket_key_of(backend: &str, family: QuantFamily) -> (r: String)
    ensures
        r@ == bucket_key(backend@, family),
{
    concat3(backend, "/", family.tag())
}

/// The records grouped for fitting.
///
/// Prefill is grouped by backend only: it is dominated by which device runs
/// the arithmetic, not by the weight quantisation.
fn group_records(records: &Vec<Record>) -> (r: Groups)
    ensures
        r.are_those_of(records@),
{
    let mut bucket: Vec<String> = Vec::new();
    let mut backend: Vec<String> = Vec::new();
    let mut etas: Vec<Sample> = Vec::new();
    let mut prefill_backend: Vec<String> = Vec::new();
    let mut scales: Vec<Sample> = Vec::new();
    let mut i: usize = 0;
    let ghost rs = records@;
    assert(texts(bucket@) =~= bucket_keys(rs, Seq::empty()));
    assert(texts(backend@) =~= backend_keys(rs, Seq::empty()));
    assert(etas@ =~= eta_samples(rs, Seq::empty()));
    assert(texts(prefill_backend@) =~= backend_keys(rs, Seq::empty()));
    assert(scales@ =~= prefill_samples(rs, Seq::empty()));
    while i < records.len()
        invariant
            i <= records@.len(),
            rs == records@,
            texts(bucket@) == bucket_keys(rs, eta_positions(rs, i as nat)),
            texts(backend@) == backend_keys(rs, eta_positions(rs, i as nat)),
            etas@ == eta_samples(rs, eta_positions(rs, i as nat)),
            texts(prefill_backend@) == backend_keys(rs, prefill_positions(rs, i as nat)),
            scales@ == prefill_samples(rs, prefill_positions(rs, i as nat)),
        decreases records@.len() - i,
    {
        let r = &records[i];
        let ghost e0 = eta_positions(rs, i as nat);
        let ghost p0 = prefill_positions(rs, i as nat);
        if r.implied_eta.is_finite() && r.implied_eta.order() > 0 && r.implied_eta.order() <= 0x3FF0_0000_0000_0000 {
            let ghost b0 = bucket@;
            let ghost c0 = backend@;
            bucket.push(bucket_key_of(r.backend.as_str(), r.quant_family));
            backend.push(copy(r.backend.as_str()));
            assert(texts(bucket@) =~= texts(b0).push(bucket_key(r.backend@, r.quant_family)));
            assert(texts(backend@) =~= texts(c0).push(r.backend@));
            assert(bucket_keys(rs, e0.push(i as int)) =~= bucket_keys(rs, e0).push(bucket_key(r.backend@, r.quant_family)));
            assert(backend_keys(rs, e0.push(i as int)) =~= backend_keys(rs, e0).push(r.backend@));
            etas.push(Sample { value: r.implied_eta, family: r.quant_family, record: i });
            assert(etas@ =~= eta_samples(rs, e0.push(i as int)));
        }
        if let Some(v) = r.implied_prefill_scale {
            if v.is_finite() && v.order() > 0 && v.order() < 0x408F_4000_0000_0000 {
                let ghost b0 = prefill_backend@;
                prefill_backend.push(copy(r.backend.as_str()));
                assert(texts(prefill_backend@) =~= texts(b0).push(r.backend@));
                assert(backend_keys(rs, p0.push(i as int)) =~= backend_keys(rs, p0).push(r.backend@));
                scales.push(Sample { value: v, family: r.quant_family, record: i });
                assert(scales@ =~= prefill_samples(rs, p0.push(i as int)));
            }
        }
        i += 1;
    }
    proof {
        assert(texts(bucket@).len() == bucket@.len());
        assert(texts(backend@).len() == backend@.len());
        assert(texts(prefill_backend@).len() == prefill_backend@.len());
    }
    Groups {
        buckets: group(&bucket, &etas),
        parents: group(&backend, &etas),
        prefill: group(&prefill_backend, &scales),
    }
}

/// The values of a group's samples.
pub open spec fn sample_values(s: Seq<Sample>) -> Seq<Double> {
    s.map_values(|x: Sample| x.value)
}

fn values_of(samples: &Vec<Sample>) -> (r: Vec<Double>)
    ensures
        r@ == sample_values(samples@),
{
    let mut out: Vec<Double> = Vec::new();
    let mut i: usize = 0;
    while i < samples.len()
        invariant
            i <= samples@.len(),
            out@ =~= sample_values(samples@.subrange(0, i as int)),
        decreases samples@.len() - i,
    {
        out.push(samples[i].value);
        i += 1;
    }
    assert(samples@.subrange(0, i as int) =~= samples@);
    out
}

/// Whether one of the first `n` samples is of the machine `hw`.
pub open spec fn machine_seen(records: Seq<Record>, s: Seq<Sample>, n: int, hw: Seq<char>) -> bool {
    exists|j: int| 0 <= j < n && records[(#[trigger] s[j]).record as int].hw@ == hw
}

/// How many machines the first `n` samples come from.
pub open spec fn machine_count(records: Seq<Record>, s: Seq<Sample>, n: nat) -> nat
    decreases n,
{
    if n == 0 {
        0
    } else {
        let m = machine_count(records, s, (n - 1) as nat);
        if machine_seen(records, s, n - 1, records[s[n - 1].record as int].hw@) {
            m
        } else {
            m + 1
        }
    }
}

/// How many different machines a group's samples come from.
fn machines_of(records: &Vec<Record>, samples: &Vec<Sample>) -> (r: usize)
    requires
        forall|i: int| 0 <= i < samples@.len() ==> (#[trigger] samples@[i]).record < records@.len(),
    ensures
        r as nat == machine_count(records@, samples@, samples@.len()),
{
    let mut n: usize = 0;
    let mut i: usize = 0;
    while i < samples.len()
        invariant
            n <= i <= samples@.len(),
            n as nat == machine_count(records@, samples@, i as nat),
            forall|i: int| 0 <= i < samples@.len() ==> (#[trigger] samples@[i]).record < records@.len(),
        decreases samples@.len() - i,
    {
        let hw = records[samples[i].record].hw.as_str();
        let mut seen = false;
        let mut j: usize = 0;
        while j < i
            invariant
                j <= i < samples@.len(),
                hw@ == records@[samples@[i as int].record as int].hw@,
                seen == machine_seen(records@, samples@, j as int, hw@),
                forall|i: int| 0 <= i < samples@.len() ==> (#[trigger] samples@[i]).record < records@.len(),
            decreases i - j,
        {
            if same(records[samples[j].record].hw.as_str(), hw) {
                assert(records@[samples@[j as int].record as int].hw@ == hw@);
                seen = true;
            }
            j += 1;
        }
        if !seen {
            n += 1;
        }
        i += 1;
    }
    n
}

// -------------------------------------------------------------------- median

/// The middle of a set of values: one of them, or the two that an average
/// would be taken of.
#[derive(Debug, Clone, Copy, PartialEq, Eq, Structural)]
pub enum Middle {
    Nothing,
    One(Double),
    Two(Double, Double),
}

/// The value at `a` comes before the one at `b`: it is smaller, or as large
/// and earlier.
pub open spec fn smaller(v: Seq<Double>) -> spec_fn(int, int) -> bool {
    |a: int, b: int| v[a].rank() < v[b].rank() || (v[a].rank() == v[b].rank() && a < b)
}

struct ByValue<'a> {
    v: &'a Vec<Double>,
}

impl Sorter for ByValue<'_> {
    closed spec fn size(&self) -> nat {
        self.v@.len()
    }

    closed spec fn rule(&self) -> spec_fn(int, int) -> bool {
        smaller(self.v@)
    }

    fn comes_before(&self, a: usize, b: usize) -> (r: bool) {
        let p: i64 = self.v[a].order();
        let q: i64 = self.v[b].order();
        p < q || (p == q && a < b)
    }

    proof fn rule_is_total(&self) {
    }
}

/// `m` is the middle of `v`, which the list `o` puts in order.
pub open spec fn middle_by(m: Middle, v: Seq<Double>, o: Seq<usize>) -> bool {
    let n = v.len() as int;
    if n == 0 {
        m == Middle::Nothing
    } else if n % 2 == 1 {
        m == Middle::One(v[o[n / 2] as int])
    } else {
        m == Middle::Two(v[o[n / 2 - 1] as int], v[o[n / 2] as int])
    }
}

pub open spec fn is_middle(m: Middle, v: Seq<Double>) -> bool {
    exists|o: Seq<usize>| in_order(o, v.len(), smaller(v)) && #[trigger] middle_by(m, v, o)
}

/// The value, or the two values, in the middle of `v`.
fn middle(v: &Vec<Double>) -> (m: Middle)
    ensures
        is_middle(m, v@),
{
    let n: usize = v.len();
    let o = sort_positions(&ByValue { v }, n);
    let m = if n == 0 {
        Middle::Nothing
    } else if n % 2 == 1 {
        Middle::One(v[o[n / 2]])
    } else {
        Middle::Two(v[o[n / 2 - 1]], v[o[n / 2]])
    };
    assert(middle_by(m, v@, o@));
    m
}

/// The middle of a set of values is decided by the values.
pub proof fn middle_is_unique(a: Middle, b: Middle, v: Seq<Double>)
    requires
        is_middle(a, v),
        is_middle(b, v),
    ensures
        a == b,
{
    let o = choose|o: Seq<usize>| in_order(o, v.len(), smaller(v)) && #[trigger] middle_by(a, v, o);
    let p = choose|o: Seq<usize>| in_order(o, v.len(), smaller(v)) && #[trigger] middle_by(b, v, o);
    crate::order::order_is_unique(o, p, v.len(), smaller(v));
}

/// One value, however wild, does not move the middle of the others: it stays
/// where they are.
pub proof fn one_wild_value_does_not_move_the_middle(m: Middle, v: Seq<Double>, wild: int, low: int, high: int)
    requires
        is_middle(m, v),
        v.len() >= 3,
        forall|i: int| 0 <= i < v.len() && i != wild ==> low <= (#[trigger] v[i]).rank() <= high,
    ensures
        match m {
            Middle::Nothing => false,
            Middle::One(x) => low <= x.rank() <= high,
            Middle::Two(x, y) => low <= x.rank() <= high && low <= y.rank() <= high,
        },
{
    let o = choose|o: Seq<usize>| in_order(o, v.len(), smaller(v)) && #[trigger] middle_by(m, v, o);
    let n = v.len() as int;
    assert forall|k: int| 1 <= k < n - 1 implies low <= v[#[trigger] o[k] as int].rank() <= high by {
        assert(smaller(v)(o[k - 1] as int, o[k] as int));
        assert(smaller(v)(o[k] as int, o[k + 1] as int));
        assert(v[o[k - 1] as int].rank() <= v[o[k] as int].rank() <= v[o[k + 1] as int].rank());
    }
}

/// The median by the middle: one value, the mean of two, or nothing.
pub open spec fn middle_value(m: Middle) -> Double {
    match m {
        Middle::Nothing => Double { bits: 0 },
        Middle::One(x) => x,
        Middle::Two(x, y) => x.sum(y).quotient(Double { bits: TWO_BITS }),
    }
}

pub open spec fn median_of(v: Seq<Double>) -> Double {
    middle_value(choose|m: Middle| is_middle(m, v))
}

/// The bits of 1.4826, which makes a median deviation comparable to a standard
/// deviation.
pub const MAD_BITS: u64 = 0x3FF7_B8BA_C710_CB29;

/// The bits of 1.645, the standard deviations each side of a range that nine
/// runs in ten fall into.
pub const COVERAGE_BITS: u64 = 0x3FFA_51EB_851E_B852;

pub fn median(v: &Vec<Double>) -> (r: Double)
    ensures
        r == median_of(v@),
{
    let m = middle(v);
    proof {
        let c = choose|m: Middle| is_middle(m, v@);
        middle_is_unique(m, c, v@);
    }
    match m {
        Middle::Nothing => Double { bits: 0 },
        Middle::One(x) => x,
        Middle::Two(x, y) => x.plus(y).over(Double { bits: TWO_BITS }),
    }
}

/// How far each value is from the centre.
pub open spec fn deviations(v: Seq<Double>, centre: Double) -> Seq<Double> {
    v.map_values(|x: Double| x.difference(centre).absolute())
}

/// Median absolute deviation, on the scale of a standard deviation.
pub open spec fn mad_of(v: Seq<Double>, centre: Double) -> Double {
    median_of(deviations(v, centre)).product(Double { bits: MAD_BITS })
}

fn mad(v: &Vec<Double>, centre: Double) -> (r: Double)
    ensures
        r == mad_of(v@, centre),
{
    let mut d: Vec<Double> = Vec::new();
    let mut i: usize = 0;
    while i < v.len()
        invariant
            i <= v@.len(),
            d@ =~= deviations(v@.subrange(0, i as int), centre),
        decreases v@.len() - i,
    {
        d.push(v[i].less(centre).abs());
        i += 1;
    }
    assert(v@.subrange(0, i as int) =~= v@);
    median(&d).times(Double { bits: MAD_BITS })
}

/// The half-width that the values themselves suggest, as a fraction of the
/// centre.
pub open spec fn spread_of(v: Seq<Double>, centre: Double) -> Double {
    if (Double { bits: 0 }).below(centre) {
        (Double { bits: COVERAGE_BITS }).product(mad_of(v, centre)).quotient(centre)
    } else {
        Double { bits: 0 }
    }
}

fn observed_spread(v: &Vec<Double>, centre: Double) -> (r: Double)
    ensures
        r == spread_of(v@, centre),
{
    if (Double { bits: 0 }).lt(centre) {
        (Double { bits: COVERAGE_BITS }).times(mad(v, centre)).over(centre)
    } else {
        Double { bits: 0 }
    }
}

// ---------------------------------------------------------------------- fits

/// A fitted value with the width that is published around it.
#[derive(Debug, Clone, Copy, PartialEq, Eq, Structural)]
pub struct Coefficient {
    pub eta: Double,
    /// Half-width of the range, as a fraction of `eta`.
    pub spread: Double,
    pub confidence: Confidence,
    pub samples: usize,
    /// How many machines the samples come from.
    pub machines: usize,
}

impl Coefficient {
    /// A coefficient measured by `samples` runs, whose values spread by
    /// `observed`: never narrower than its confidence allows.
    pub fn measured(eta: Double, observed: Double, samples: usize, machines: usize) -> (r: Coefficient)
        ensures
            r.eta == eta,
            r.confidence == Confidence::of_count(samples as nat),
            r.spread == observed.larger(Double { bits: r.confidence.min_spread_bits() }),
            r.samples == samples,
            r.machines == machines,
    {
        let confidence = Confidence::from_count(samples);
        Coefficient { eta, spread: observed.max(confidence.min_spread()), confidence, samples, machines }
    }

    pub open spec fn prior_only(prior: Double) -> Coefficient {
        Coefficient {
            eta: prior,
            spread: Double { bits: Confidence::Prior.min_spread_bits() },
            confidence: Confidence::Prior,
            samples: 0,
            machines: 0,
        }
    }

    /// The shipped prior, with nothing measured behind it.
    pub fn shipped(prior: Double) -> (r: Coefficient)
        ensures
            r == Coefficient::prior_only(prior),
    {
        Coefficient {
            eta: prior,
            spread: Confidence::Prior.min_spread(),
            confidence: Confidence::Prior,
            samples: 0,
            machines: 0,
        }
    }
}

/// Per-backend aggregate, used when a quantisation family has never been
/// measured on that backend.
///
/// Keeps the mean prior efficiency of the samples that formed it, so that a
/// lookup can transfer the ratio rather than the raw value.
#[derive(Debug, Clone, Copy, PartialEq, Eq, Structural)]
pub struct Parent {
    pub eta: Double,
    pub spread: Double,
    pub samples: usize,
    pub machines: usize,
    pub mean_prior_efficiency: Double,
}

impl Parent {
    pub fn measured(eta: Double, observed: Double, samples: usize, machines: usize, mean: Double) -> (r: Parent)
        ensures
            r.eta == eta,
            r.spread == observed.larger(Double { bits: Confidence::Low.min_spread_bits() }),
            r.samples == samples,
            r.machines == machines,
            r.mean_prior_efficiency == mean,
    {
        Parent {
            eta,
            spread: observed.max(Confidence::Low.min_spread()),
            samples,
            machines,
            mean_prior_efficiency: mean,
        }
    }

    /// What the parent lends to a family of its own: real evidence, but not
    /// about this quantisation, so never better than low confidence. The ratio
    /// is transferred, not the value: this backend's over- or undershoot is
    /// applied to the family's own prior.
    pub open spec fn lent(self, family: QuantFamily) -> Coefficient {
        let efficiency = Double { bits: family.efficiency_bits() };
        let scale = if (Double { bits: 0 }).below(self.mean_prior_efficiency) {
            efficiency.quotient(self.mean_prior_efficiency)
        } else {
            Double { bits: ONE_BITS }
        };
        Coefficient {
            eta: self.eta.product(scale),
            spread: self.spread.larger(Double { bits: Confidence::Low.min_spread_bits() }),
            confidence: Confidence::Low,
            samples: self.samples,
            machines: self.machines,
        }
    }

    fn lend(self, family: QuantFamily) -> (r: Coefficient)
        ensures
            r == self.lent(family),
    {
        let scale = if (Double { bits: 0 }).lt(self.mean_prior_efficiency) {
            family.efficiency().over(self.mean_prior_efficiency)
        } else {
            Double { bits: ONE_BITS }
        };
        Coefficient {
            eta: self.eta.times(scale),
            spread: self.spread.max(Confidence::Low.min_spread()),
            confidence: Confidence::Low,
            samples: self.samples,
            machines: self.machines,
        }
    }
}

/// A coefficient under its key.
pub struct Named<T> {
    pub key: String,
    pub value: T,
}

/// What stands under `key`, the first entry of that name.
pub open spec fn under<T>(v: Seq<Named<T>>, key: Seq<char>) -> Option<T>
    decreases v.len(),
{
    if v.len() == 0 {
        None
    } else if v[0].key@ == key {
        Some(v[0].value)
    } else {
        under(v.subrange(1, v.len() as int), key)
    }
}

fn find_under<T: Copy>(v: &Vec<Named<T>>, key: &str) -> (r: Option<T>)
    ensures
        r == under(v@, key@),
{
    let mut i: usize = 0;
    assert(v@.subrange(0, v@.len() as int) =~= v@);
    while i < v.len()
        invariant
            i <= v@.len(),
            under(v@, key@) == under(v@.subrange(i as int, v@.len() as int), key@),
        decreases v@.len() - i,
    {
        let ghost rest = v@.subrange(i as int, v@.len() as int);
        assert(rest[0] == v@[i as int]);
        assert(rest.subrange(1, rest.len() as int) =~= v@.subrange(i + 1, v@.len() as int));
        if same(v[i].key.as_str(), key) {
            return Some(v[i].value);
        }
        i += 1;
    }
    None
}

/// Where a coefficient comes from.
#[derive(Debug, Clone, Copy, PartialEq, Eq, Structural)]
pub enum Evidence {
    /// Runs on this backend with this family.
    Bucket(Coefficient),
    /// Runs on this backend with other families.
    Parent(Parent),
    /// No run at all.
    Shipped,
}

/// Fitted coefficients, keyed by grouping.
pub struct Fit {
    pub buckets: Vec<Named<Coefficient>>,
    pub parents: Vec<Named<Parent>>,
    /// Prefill scale per backend. Absent means unknown, and callers report
    /// unknown rather than invent a number.
    pub prefill: Vec<Named<Coefficient>>,
}

/// Bucket `a` is listed before bucket `b`: it has more samples, or as many and
/// the earlier name.
pub open spec fn more_evidence(v: Seq<Named<Coefficient>>) -> spec_fn(int, int) -> bool {
    |a: int, b: int|
        v[a].value.samples > v[b].value.samples || (v[a].value.samples == v[b].value.samples && (text_below(
            v[a].key@,
            v[b].key@,
        ) || (v[a].key@ == v[b].key@ && a < b)))
}

struct ByEvidence<'a> {
    v: &'a Vec<Named<Coefficient>>,
}

impl Sorter for ByEvidence<'_> {
    closed spec fn size(&self) -> nat {
        self.v@.len()
    }

    closed spec fn rule(&self) -> spec_fn(int, int) -> bool {
        more_evidence(self.v@)
    }

    fn comes_before(&self, a: usize, b: usize) -> (r: bool) {
        let p = &self.v[a];
        let q = &self.v[b];
        p.value.samples > q.value.samples || (p.value.samples == q.value.samples && (text_less(
            p.key.as_str(),
            q.key.as_str(),
        ) || (same(p.key.as_str(), q.key.as_str()) && a < b)))
    }

    proof fn rule_is_total(&self) {
        lemma_more_evidence_total(self.v@);
    }
}

/// The positions of the buckets proper, `o` in that order, without those named
/// as a whole backend.
pub open spec fn proper_buckets(v: Seq<Named<Coefficient>>, o: Seq<usize>) -> Seq<usize>
    decreases o.len(),
{
    if o.len() == 0 {
        Seq::empty()
    } else {
        let rest = proper_buckets(v, o.drop_last());
        if ends_with(v[o.last() as int].key@, "/*"@) {
            rest
        } else {
            rest.push(o.last())
        }
    }
}

impl Fit {
    /// A fit with no evidence.
    pub fn empty() -> (r: Fit)
        ensures
            r.buckets@.len() == 0,
            r.parents@.len() == 0,
            r.prefill@.len() == 0,
    {
        Fit { buckets: Vec::new(), parents: Vec::new(), prefill: Vec::new() }
    }

    pub open spec fn evidence(self, backend: Seq<char>, family: QuantFamily) -> Evidence {
        match under(self.buckets@, bucket_key(backend, family)) {
            Some(c) => Evidence::Bucket(c),
            None => match under(self.parents@, backend) {
                Some(p) => Evidence::Parent(p),
                None => Evidence::Shipped,
            },
        }
    }

    pub open spec fn coefficient(self, backend: Seq<char>, family: QuantFamily, prior: Double) -> Coefficient {
        match self.evidence(backend, family) {
            Evidence::Bucket(c) => c,
            Evidence::Parent(p) => p.lent(family),
            Evidence::Shipped => Coefficient::prior_only(prior),
        }
    }

    /// Best available coefficient: exact bucket, then backend parent, then the
    /// shipped prior.
    pub fn lookup(&self, backend: &str, family: QuantFamily, prior: Double) -> (r: Coefficient)
        ensures
            r == self.coefficient(backend@, family, prior),
    {
        let key = bucket_key_of(backend, family);
        match find_under(&self.buckets, key.as_str()) {
            Some(c) => c,
            None => match find_under(&self.parents, backend) {
                Some(p) => p.lend(family),
                None => Coefficient::shipped(prior),
            },
        }
    }

    /// Fitted prefill scale for a backend.
    ///
    /// `None` means no run has ever been measured on this backend. There is
    /// deliberately no prior: any would be wrong by an unknown factor.
    pub fn prefill_scale(&self, backend: &str) -> (r: Option<Coefficient>)
        ensures
            r == under(self.prefill@, backend@),
    {
        find_under(&self.prefill, backend)
    }

    pub fn is_empty(&self) -> (r: bool)
        ensures
            r == (self.buckets@.len() == 0),
    {
        self.buckets.len() == 0
    }

    /// Positions of the buckets, those with most samples first.
    pub fn ranked(&self) -> (r: Vec<usize>)
        ensures
            exists|o: Seq<usize>| in_order(o, self.buckets@.len(), more_evidence(self.buckets@)) && r@ == #[trigger] proper_buckets(self.buckets@, o),
            forall|i: int| 0 <= i < r@.len() ==> (#[trigger] r@[i]) < self.buckets@.len(),
    {
        let ghost v = self.buckets@;
        let o = sort_positions(&ByEvidence { v: &self.buckets }, self.buckets.len());
        let mut out: Vec<usize> = Vec::new();
        let mut i: usize = 0;
        while i < o.len()
            invariant
                i <= o@.len(),
                v == self.buckets@,
                in_order(o@, v.len(), more_evidence(v)),
                out@ =~= proper_buckets(v, o@.subrange(0, i as int)),
                forall|i: int| 0 <= i < out@.len() ==> (#[trigger] out@[i]) < v.len(),
            decreases o@.len() - i,
        {
            assert(o@.subrange(0, i + 1).drop_last() =~= o@.subrange(0, i as int));
            assert(o@[i as int] < v.len());
            if !ends(self.buckets[o[i]].key.as_str(), "/*") {
                out.push(o[i]);
            }
            i += 1;
        }
        assert(o@.subrange(0, i as int) =~= o@);
        out
    }
}

/// The buckets at the positions, by name.
pub open spec fn named_at(v: Seq<Named<Coefficient>>, at: Seq<usize>) -> Seq<(Seq<char>, Coefficient)> {
    at.map_values(|i: usize| (v[i as int].key@, v[i as int].value))
}

pub open spec fn named_views(v: Seq<Named<Coefficient>>) -> Seq<(Seq<char>, Coefficient)> {
    v.map_values(|n: Named<Coefficient>| (n.key@, n.value))
}

/// `at` lists the buckets as a summary does: those with most samples first,
/// and none of those that stand for a whole backend.
pub open spec fn is_summary(f: Fit, at: Seq<usize>) -> bool {
    exists|o: Seq<usize>| in_order(o, f.buckets@.len(), more_evidence(f.buckets@)) && at == #[trigger] proper_buckets(f.buckets@, o)
}

impl Fit {
    /// Buckets with most samples first, for reporting.
    pub fn summary(&self) -> (r: Vec<Named<Coefficient>>)
        ensures
            exists|at: Seq<usize>| is_summary(*self, at) && named_views(r@) == #[trigger] named_at(self.buckets@, at),
    {
        let at = self.ranked();
        assert(is_summary(*self, at@));
        let mut out: Vec<Named<Coefficient>> = Vec::new();
        let mut i: usize = 0;
        while i < at.len()
            invariant
                i <= at@.len(),
                forall|i: int| 0 <= i < at@.len() ==> (#[trigger] at@[i]) < self.buckets@.len(),
                named_views(out@) =~= named_at(self.buckets@, at@.subrange(0, i as int)),
            decreases at@.len() - i,
        {
            assert(at@[i as int] < self.buckets@.len());
            let b = &self.buckets[at[i]];
            let ghost prev = out@;
            let n = Named { key: copy(b.key.as_str()), value: b.value };
            out.push(n);
            proof {
                assert(named_views(out@) =~= named_views(prev).push((b.key@, b.value)));
                assert(at@.subrange(0, i + 1) =~= at@.subrange(0, i as int).push(at@[i as int]));
                assert(named_at(self.buckets@, at@.subrange(0, i + 1)) =~= named_at(
                    self.buckets@,
                    at@.subrange(0, i as int),
                ).push((b.key@, b.value)));
            }
            i += 1;
        }
        assert(at@.subrange(0, i as int) =~= at@);
        out
    }
}

// -------------------------------------------------------------------- fitting

/// `c` is fitted from the samples.
pub open spec fn is_fitted(c: Coefficient, records: Seq<Record>, s: Seq<Sample>) -> bool {
    let v = sample_values(s);
    &&& c.eta == median_of(v)
    &&& c.confidence == Confidence::of_count(s.len())
    &&& c.spread == spread_of(v, c.eta).larger(Double { bits: c.confidence.min_spread_bits() })
    &&& c.samples == s.len()
    &&& c.machines == machine_count(records, s, s.len())
}

/// The priors of the first `n` samples' families, added up as they come.
pub open spec fn prior_sum(s: Seq<Sample>, n: nat) -> Double
    decreases n,
{
    if n == 0 {
        Double { bits: 0 }
    } else {
        prior_sum(s, (n - 1) as nat).sum(Double { bits: s[n - 1].family.efficiency_bits() })
    }
}

pub open spec fn is_parent(p: Parent, records: Seq<Record>, s: Seq<Sample>) -> bool {
    let v = sample_values(s);
    &&& p.eta == median_of(v)
    &&& p.spread == spread_of(v, p.eta).larger(Double { bits: Confidence::Low.min_spread_bits() })
    &&& p.samples == s.len()
    &&& p.machines == machine_count(records, s, s.len())
    &&& p.mean_prior_efficiency == prior_sum(s, s.len()).quotient(Double::count(s.len()))
}

/// A coefficient per group, under its key.
pub open spec fn fits_groups(v: Seq<Named<Coefficient>>, g: Seq<Group<Sample>>, records: Seq<Record>) -> bool {
    &&& v.len() == g.len()
    &&& forall|i: int| 0 <= i < v.len() ==> (#[trigger] v[i]).key@ == g[i].key@ && is_fitted(v[i].value, records, g[i].items@)
}

pub open spec fn parents_groups(v: Seq<Named<Parent>>, g: Seq<Group<Sample>>, records: Seq<Record>) -> bool {
    &&& v.len() == g.len()
    &&& forall|i: int| 0 <= i < v.len() ==> (#[trigger] v[i]).key@ == g[i].key@ && is_parent(v[i].value, records, g[i].items@)
}

impl Fit {
    pub open spec fn fits(self, g: Groups, records: Seq<Record>) -> bool {
        &&& fits_groups(self.buckets@, g.buckets@, records)
        &&& parents_groups(self.parents@, g.parents@, records)
        &&& fits_groups(self.prefill@, g.prefill@, records)
    }

    /// The fit is that of the records, grouped three ways.
    pub open spec fn is_of(self, records: Seq<Record>) -> bool {
        exists|g: Groups| g.are_those_of(records) && #[trigger] self.fits(g, records)
    }
}

/// Every value of a group is one of those that were grouped.
proof fn lemma_items_from<T>(keys: Seq<Seq<char>>, vals: Seq<T>, k: Seq<char>, j: int)
    requires
        keys.len() == vals.len(),
        0 <= j < items_of(keys, vals, k).len(),
    ensures
        exists|i: int| 0 <= i < vals.len() && vals[i] == items_of(keys, vals, k)[j],
    decreases keys.len(),
{
    if keys.len() > 0 {
        let rest = items_of(keys.drop_last(), vals.drop_last(), k);
        if j < rest.len() {
            lemma_items_from(keys.drop_last(), vals.drop_last(), k, j);
            let i = choose|i: int| 0 <= i < vals.drop_last().len() && vals.drop_last()[i] == rest[j];
            assert(vals[i] == rest[j]);
        } else {
            assert(vals[vals.len() - 1] == items_of(keys, vals, k)[j]);
        }
    }
}

proof fn lemma_positions(records: Seq<Record>, n: nat)
    ensures
        forall|j: int| 0 <= j < eta_positions(records, n).len() ==> 0 <= #[trigger] eta_positions(records, n)[j] < n,
        forall|j: int| 0 <= j < prefill_positions(records, n).len() ==> 0 <= #[trigger] prefill_positions(records, n)[j] < n,
    decreases n,
{
    if n > 0 {
        let m = (n - 1) as nat;
        lemma_positions(records, m);
        let e = eta_positions(records, m);
        let p = prefill_positions(records, m);
        assert forall|j: int| 0 <= j < eta_positions(records, n).len() implies 0 <= #[trigger] eta_positions(records, n)[j] < n by {
            if j < e.len() {
                assert(eta_positions(records, n)[j] == e[j]);
            }
        }
        assert forall|j: int| 0 <= j < prefill_positions(records, n).len() implies 0 <= #[trigger] prefill_positions(records, n)[j] < n by {
            if j < p.len() {
                assert(prefill_positions(records, n)[j] == p[j]);
            }
        }
    }
}

/// The samples of the groups point into the records.
proof fn lemma_samples_in(g: Seq<Group<Sample>>, keys: Seq<Seq<char>>, vals: Seq<Sample>, n: nat)
    requires
        grouped(g, keys, vals),
        keys.len() == vals.len(),
        forall|i: int| 0 <= i < vals.len() ==> (#[trigger] vals[i]).record < n,
    ensures
        forall|h: int, j: int| 0 <= h < g.len() && 0 <= j < g[h].items@.len() ==> (#[trigger] g[h].items@[j]).record < n,
{
    assert forall|h: int, j: int| 0 <= h < g.len() && 0 <= j < g[h].items@.len() implies (#[trigger] g[h].items@[j]).record < n by {
        let k = g[h].key@;
        assert(g[h].items@ == items_of(keys, vals, k));
        lemma_items_from(keys, vals, k, j);
        let i = choose|i: int| 0 <= i < vals.len() && vals[i] == items_of(keys, vals, k)[j];
        assert(vals[i].record < n);
    }
}

fn fit_group(records: &Vec<Record>, s: &Vec<Sample>) -> (c: Coefficient)
    requires
        forall|i: int| 0 <= i < s@.len() ==> (#[trigger] s@[i]).record < records@.len(),
    ensures
        is_fitted(c, records@, s@),
{
    let v = values_of(s);
    let eta = median(&v);
    Coefficient::measured(eta, observed_spread(&v, eta), s.len(), machines_of(records, s))
}

fn fit_parent(records: &Vec<Record>, s: &Vec<Sample>) -> (p: Parent)
    requires
        forall|i: int| 0 <= i < s@.len() ==> (#[trigger] s@[i]).record < records@.len(),
    ensures
        is_parent(p, records@, s@),
{
    let v = values_of(s);
    let eta = median(&v);
    let mut total = Double { bits: 0 };
    let mut i: usize = 0;
    while i < s.len()
        invariant
            i <= s@.len(),
            total == prior_sum(s@, i as nat),
        decreases s@.len() - i,
    {
        total = total.plus(s[i].family.efficiency());
        i += 1;
    }
    let mean = total.over(Double::of_count(s.len() as u64));
    Parent::measured(eta, observed_spread(&v, eta), s.len(), machines_of(records, s), mean)
}

fn fit_groups(records: &Vec<Record>, g: &Vec<Group<Sample>>) -> (r: Vec<Named<Coefficient>>)
    requires
        forall|h: int, j: int| 0 <= h < g@.len() && 0 <= j < g@[h].items@.len() ==> (#[trigger] g@[h].items@[j]).record < records@.len(),
    ensures
        fits_groups(r@, g@, records@),
{
    let mut out: Vec<Named<Coefficient>> = Vec::new();
    let mut i: usize = 0;
    while i < g.len()
        invariant
            i <= g@.len(),
            forall|h: int, j: int| 0 <= h < g@.len() && 0 <= j < g@[h].items@.len() ==> (#[trigger] g@[h].items@[j]).record < records@.len(),
            out@.len() == i,
            forall|k: int| 0 <= k < i ==> (#[trigger] out@[k]).key@ == g@[k].key@ && is_fitted(out@[k].value, records@, g@[k].items@),
        decreases g@.len() - i,
    {
        let value = fit_group(records, &g[i].items);
        out.push(Named { key: copy(g[i].key.as_str()), value });
        i += 1;
    }
    out
}

fn fit_parents(records: &Vec<Record>, g: &Vec<Group<Sample>>) -> (r: Vec<Named<Parent>>)
    requires
        forall|h: int, j: int| 0 <= h < g@.len() && 0 <= j < g@[h].items@.len() ==> (#[trigger] g@[h].items@[j]).record < records@.len(),
    ensures
        parents_groups(r@, g@, records@),
{
    let mut out: Vec<Named<Parent>> = Vec::new();
    let mut i: usize = 0;
    while i < g.len()
        invariant
            i <= g@.len(),
            forall|h: int, j: int| 0 <= h < g@.len() && 0 <= j < g@[h].items@.len() ==> (#[trigger] g@[h].items@[j]).record < records@.len(),
            out@.len() == i,
            forall|k: int| 0 <= k < i ==> (#[trigger] out@[k]).key@ == g@[k].key@ && is_parent(out@[k].value, records@, g@[k].items@),
        decreases g@.len() - i,
    {
        let value = fit_parent(records, &g[i].items);
        out.push(Named { key: copy(g[i].key.as_str()), value });
        i += 1;
    }
    out
}

impl Fit {
    /// Group records and fit each group.
    ///
    /// Two levels are fitted: the specific backend and family, and a parent
    /// per backend that catches families not seen on it yet.
    pub fn from_records(records: &Vec<Record>) -> (r: Fit)
        ensures
            r.is_of(records@),
    {
        let g = group_records(records);
        let ghost rs = records@;
        proof {
            let n = rs.len();
            let e = eta_positions(rs, n);
            let p = prefill_positions(rs, n);
            lemma_positions(rs, n);
            let ev = eta_samples(rs, e);
            let pv = prefill_samples(rs, p);
            assert forall|i: int| 0 <= i < ev.len() implies (#[trigger] ev[i]).record < n by {
                assert(0 <= e[i] < n);
            }
            assert forall|i: int| 0 <= i < pv.len() implies (#[trigger] pv[i]).record < n by {
                assert(0 <= p[i] < n);
            }
            lemma_samples_in(g.buckets@, bucket_keys(rs, e), ev, n);
            lemma_samples_in(g.parents@, backend_keys(rs, e), ev, n);
            lemma_samples_in(g.prefill@, backend_keys(rs, p), pv, n);
        }
        let fit = Fit {
            buckets: fit_groups(records, &g.buckets),
            parents: fit_parents(records, &g.parents),
            prefill: fit_groups(records, &g.prefill),
        };
        assert(fit.fits(g, rs));
        fit
    }

    /// The fit of a calibration file.
    pub fn from_text(text: &str) -> (r: Fit)
        ensures
            exists|records: Seq<Record>| record_views(records) == records_in(lines(text@)) && #[trigger] r.is_of(records),
    {
        let records = parse_records(text);
        let fit = Fit::from_records(&records);
        assert(fit.is_of(records@));
        fit
    }
}

proof fn lemma_more_evidence_total(v: Seq<Named<Coefficient>>)
    ensures
        strict_total(v.len(), more_evidence(v)),
{
    let f = more_evidence(v);
    assert forall|a: int, b: int| 0 <= a < v.len() && 0 <= b < v.len() && a != b implies #[trigger] f(a, b)
        != #[trigger] f(b, a) by {
        if v[a].key@ != v[b].key@ {
            crate::order::text_order_is_total(v[a].key@, v[b].key@);
        } else {
            crate::order::text_order_is_strict(v[a].key@);
        }
    }
    assert forall|a: int, b: int, c: int|
        0 <= a < v.len() && 0 <= b < v.len() && 0 <= c < v.len() && #[trigger] f(a, b) && #[trigger] f(b, c) implies f(a, c) by {
        if text_below(v[a].key@, v[b].key@) && text_below(v[b].key@, v[c].key@) {
            crate::order::text_order_carries_over(v[a].key@, v[b].key@, v[c].key@);
        }
    }
}

} // verus!
