//! `zc gate`: does the prediction model clear the bar?
//!
//! Deliberately apart from `zc fit`: fitting reports what the data says about
//! the coefficients, this reports how wrong the predictions were before
//! that data existed.

use vstd::prelude::*;
use crate::chars::{concat2, concat3, copy, dec, decimal, left, pad_left, pad_right, right, texts};
use crate::double::Double;
use crate::gate::{blocker_texts, Gate, MachineResult, Miss};

verus! {

/// What is said where there is no dataset: unmeasurable is not failed.
pub open spec fn missing_text(path: Seq<char>) -> Seq<char> {
    "No calibration data at "@ + path
        + ".\n\nThe Phase 0 gate is: median decode error < 25% across >= 5 machines.\nNothing has been measured, so it is unmeasurable — not failed, unknown.\n\n    ollama pull qwen3:4b && zc verify\n"@
}

pub fn no_dataset(path: &str) -> (o: String)
    ensures
        o@ == missing_text(path@),
{
    concat3(
        "No calibration data at ",
        path,
        ".\n\nThe Phase 0 gate is: median decode error < 25% across >= 5 machines.\nNothing has been measured, so it is unmeasurable — not failed, unknown.\n\n    ollama pull qwen3:4b && zc verify\n",
    )
}

/// How much was measured, and how much of it is too old to count.
pub open spec fn counts_text(g: Gate, path: Seq<char>) -> Seq<char> {
    "== phase 0 gate ==  ("@ + path + ")\n\n  "@ + dec(g.runs as nat) + " runs on "@ + dec(g.machines@.len())
        + " machine(s)"@ + (if g.skipped > 0 {
        ", "@ + dec(g.skipped as nat) + " older record(s) without an error field skipped"@
    } else {
        ""@
    }) + "\n"@
}

fn counts(g: &Gate, path: &str) -> (o: String)
    ensures
        o@ == counts_text(*g, path@),
{
    let older = if g.skipped > 0 {
        concat3(", ", decimal(g.skipped as u128).as_str(), " older record(s) without an error field skipped")
    } else {
        copy("")
    };
    let mut o = copy("== phase 0 gate ==  (");
    o.append(path);
    o.append(")\n\n  ");
    o.append(decimal(g.runs as u128).as_str());
    o.append(" runs on ");
    o.append(decimal(g.machines.len() as u128).as_str());
    o.append(" machine(s)");
    o.append(older.as_str());
    o.append("\n");
    o
}

pub open spec fn blocked_text(b: Seq<Seq<char>>) -> Seq<char>
    decreases b.len(),
{
    if b.len() == 0 {
        Seq::empty()
    } else {
        blocked_text(b.drop_last()) + ("\n  BLOCKED  "@ + b.last() + "\n"@)
    }
}

fn blocked(g: &Gate) -> (o: String)
    ensures
        o@ == blocked_text(blocker_texts(*g)),
{
    let b = g.blockers();
    let ghost all = texts(b@);
    let mut o = String::new();
    let mut i: usize = 0;
    assert(all.subrange(0, 0) =~= Seq::<Seq<char>>::empty());
    while i < b.len()
        invariant
            i <= b@.len(),
            all == texts(b@),
            o@ == blocked_text(all.subrange(0, i as int)),
        decreases b@.len() - i,
    {
        assert(all.subrange(0, i + 1).drop_last() =~= all.subrange(0, i as int));
        assert(all.subrange(0, i + 1).last() == b@[i as int]@);
        let line = concat3("\n  BLOCKED  ", b[i].as_str(), "\n");
        o.append(line.as_str());
        i += 1;
    }
    assert(all.subrange(0, i as int) =~= all);
    o
}

pub open spec fn machine_row(m: MachineResult) -> Seq<char> {
    "  "@ + left(m.hw@, 20) + " "@ + right(dec(m.runs as nat), 7) + " "@ + right(m.median_abs_error_pct.text(1), 17) + "%\n"@
}

pub open spec fn machine_rows(m: Seq<MachineResult>) -> Seq<char>
    decreases m.len(),
{
    if m.len() == 0 {
        Seq::empty()
    } else {
        machine_rows(m.drop_last()) + machine_row(m.last())
    }
}

fn machines(m: &Vec<MachineResult>) -> (o: String)
    ensures
        o@ == machine_rows(m@),
{
    let mut o = String::new();
    let mut i: usize = 0;
    assert(m@.subrange(0, 0) =~= Seq::<MachineResult>::empty());
    while i < m.len()
        invariant
            i <= m@.len(),
            o@ == machine_rows(m@.subrange(0, i as int)),
        decreases m@.len() - i,
    {
        assert(m@.subrange(0, i + 1).drop_last() =~= m@.subrange(0, i as int));
        let mut l = copy("  ");
        l.append(pad_right(m[i].hw.as_str(), 20).as_str());
        l.append(" ");
        l.append(pad_left(decimal(m[i].runs as u128).as_str(), 7).as_str());
        l.append(" ");
        l.append(pad_left(m[i].median_abs_error_pct.fixed(1).as_str(), 17).as_str());
        l.append("%\n");
        o.append(l.as_str());
        i += 1;
    }
    assert(m@.subrange(0, i as int) =~= m@);
    o
}

/// A number with its sign, whichever it is.
pub open spec fn signed_text(d: Double) -> Seq<char> {
    if d.nan() || d.negative() {
        d.text(1)
    } else {
        "+"@ + d.text(1)
    }
}

pub open spec fn miss_row(m: Miss) -> Seq<char> {
    "  "@ + left(m.model@, 24) + " "@ + left(m.quant@, 10) + " "@ + right(signed_text(m.error_pct), 8) + "%\n"@
}

pub open spec fn miss_rows(m: Seq<Miss>) -> Seq<char>
    decreases m.len(),
{
    if m.len() == 0 {
        Seq::empty()
    } else {
        miss_rows(m.drop_last()) + miss_row(m.last())
    }
}

fn misses(m: &Vec<Miss>) -> (o: String)
    ensures
        o@ == miss_rows(m@),
{
    let mut o = String::new();
    let mut i: usize = 0;
    assert(m@.subrange(0, 0) =~= Seq::<Miss>::empty());
    while i < m.len()
        invariant
            i <= m@.len(),
            o@ == miss_rows(m@.subrange(0, i as int)),
        decreases m@.len() - i,
    {
        assert(m@.subrange(0, i + 1).drop_last() =~= m@.subrange(0, i as int));
        let e = m[i].error_pct;
        let error = if e.is_nan() || e.is_negative() {
            e.fixed(1)
        } else {
            concat2("+", e.fixed(1).as_str())
        };
        let mut l = copy("  ");
        l.append(pad_right(m[i].model.as_str(), 24).as_str());
        l.append(" ");
        l.append(pad_right(m[i].quant.as_str(), 10).as_str());
        l.append(" ");
        l.append(pad_left(error.as_str(), 8).as_str());
        l.append("%\n");
        o.append(l.as_str());
        i += 1;
    }
    assert(m@.subrange(0, i as int) =~= m@);
    o
}

/// The medians, and how often the promise was kept.
pub open spec fn medians_text(g: Gate) -> Seq<char> {
    "\n  machine                 runs     median |error|\n"@ + machine_rows(g.machines@)
        + "\n  median of per-machine medians   "@ + right(g.median_pct.text(1), 8)
        + "%   <- the "@ + "gate\n  pooled median over all runs     "@ + right(g.pooled_median_pct.text(1), 8)
        + "%\n  measurement landed in range     "@ + right(g.within_range_pct.text(1), 8) + "%   (the promise we published)\n"@
}

/// The bits of ten.
pub const TEN_BITS: u64 = 0x4024_0000_0000_0000;

/// The two medians are more than ten points apart.
pub open spec fn uneven(g: Gate) -> bool {
    (Double { bits: TEN_BITS }).below(g.median_pct.difference(g.pooled_median_pct).absolute())
}

/// What follows from them. A wide gap between the two medians means that
/// accuracy is machine-specific.
pub open spec fn findings_text(g: Gate, fitted: bool) -> Seq<char> {
    (if uneven(g) {
        "\n  !  per-machine and pooled medians disagree by more than 10 points.\n     Accuracy is uneven across machines; one machine is carrying the average.\n"@
    } else {
        ""@
    }) + (if g.worst@.len() > 0 {
        "\n  worst predictions (negative = we predicted slower than reality)\n"@ + miss_rows(g.worst@)
    } else {
        ""@
    }) + (if fitted {
        ""@
    } else {
        "\n  note: these errors were produced by shipped priors, not a fit.\n"@
    })
}

/// The last word.
pub open spec fn outcome_text(g: Gate) -> Seq<char> {
    if g.passed {
        "\n  PASS  median "@ + g.median_pct.text(1) + "% < 25% across "@ + dec(g.machines@.len()) + " machines.\n"@
    } else {
        blocked_text(blocker_texts(g))
    }
}

fn outcome(g: &Gate) -> (o: String)
    ensures
        o@ == outcome_text(*g),
{
    if g.passed {
        let mut o = copy("\n  PASS  median ");
        o.append(g.median_pct.fixed(1).as_str());
        o.append("% < 25% across ");
        o.append(decimal(g.machines.len() as u128).as_str());
        o.append(" machines.\n");
        o
    } else {
        blocked(g)
    }
}

fn medians(g: &Gate) -> (o: String)
    ensures
        o@ == medians_text(*g),
{
    let mut o = copy("\n  machine                 runs     median |error|\n");
    o.append(machines(&g.machines).as_str());
    o.append("\n  median of per-machine medians   ");
    o.append(pad_left(g.median_pct.fixed(1).as_str(), 8).as_str());
    o.append("%   <- the ");
    o.append("gate\n  pooled median over all runs     ");
    o.append(pad_left(g.pooled_median_pct.fixed(1).as_str(), 8).as_str());
    o.append("%\n  measurement landed in range     ");
    o.append(pad_left(g.within_range_pct.fixed(1).as_str(), 8).as_str());
    o.append("%   (the promise we published)\n");
    o
}

fn findings(g: &Gate, fitted: bool) -> (o: String)
    ensures
        o@ == findings_text(*g, fitted),
{
    let ten = Double::from_bits(TEN_BITS);
    let worst = if g.worst.len() > 0 {
        concat2("\n  worst predictions (negative = we predicted slower than reality)\n", misses(&g.worst).as_str())
    } else {
        copy("")
    };
    concat3(
        if ten.lt(g.median_pct.less(g.pooled_median_pct).abs()) {
            "\n  !  per-machine and pooled medians disagree by more than 10 points.\n     Accuracy is uneven across machines; one machine is carrying the average.\n"
        } else {
            ""
        },
        worst.as_str(),
        if fitted {
            ""
        } else {
            "\n  note: these errors were produced by shipped priors, not a fit.\n"
        },
    )
}

/// Everything `zc gate` says.
pub open spec fn gate_report(g: Gate, path: Seq<char>, fitted: bool) -> Seq<char> {
    if g.runs == 0 {
        counts_text(g, path) + blocked_text(blocker_texts(g))
    } else {
        counts_text(g, path) + medians_text(g) + findings_text(g, fitted) + outcome_text(g)
    }
}

/// What is said of the dataset at `path`. `fitted` is whether any coefficient
/// has runs behind it.
pub fn report(g: &Gate, path: &str, fitted: bool) -> (o: String)
    ensures
        o@ == gate_report(*g, path@, fitted),
{
    let mut o = counts(g, path);
    if g.runs == 0 {
        o.append(blocked(g).as_str());
        return o;
    }
    o.append(medians(g).as_str());
    o.append(findings(g, fitted).as_str());
    o.append(outcome(g).as_str());
    o
}

/// Non-zero when the bar is not met, so that scripts can depend on it.
pub fn exit_code(g: &Gate) -> (r: i32)
    ensures
        r == (if g.runs > 0 && g.passed {
            0int
        } else {
            1
        }),
{
    if g.runs > 0 && g.passed {
        0
    } else {
        1
    }
}

/// The figure beside the headline: what the median is with every merged record
/// counted. It decides nothing.
pub open spec fn merged_text(g: Gate) -> Seq<char> {
    "\n  with merged community records   "@ + right(g.median_pct.text(1), 8) + "%   ("@ + dec(g.runs as nat) + " runs on "@ + dec(
        g.machines@.len(),
    ) + " machine(s); not the headline)\n"@
}

pub fn merged(g: &Gate) -> (o: String)
    ensures
        o@ == merged_text(*g),
{
    let mut o = copy("\n  with merged community records   ");
    o.append(pad_left(g.median_pct.fixed(1).as_str(), 8).as_str());
    o.append("%   (");
    o.append(decimal(g.runs as u128).as_str());
    o.append(" runs on ");
    o.append(decimal(g.machines.len() as u128).as_str());
    o.append(" machine(s); not the headline)\n");
    o
}

} // verus!
