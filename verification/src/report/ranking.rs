//! What is listed first, and which version of a model is listed.

use vstd::prelude::*;
use crate::double::error::{
    near, nearness_carries_over, nearness_scales, nearness_widens, ordinary, products_are_near, quotients_are_near, sums_are_near, SLACK,
};
use crate::double::laws::{products_keep_order, quotients_keep_order, rounding_keeps_order, units_follow_magnitudes};
use crate::double::{lemma_pow2_grows, pow2, Double, THOUSAND_BITS, TWO_BITS};
use crate::order::{in_order, lemma_hits_all};
use crate::predict::inversion::{lemma_between, lemma_positive};
use crate::predict::laws::lemma_exactly;
use crate::predict::speed::{lemma_nothing, lemma_powers_of_two, one};
use crate::predict::{Prediction, Verdict};
use crate::report::{
    all_positions, best_of, best_rows, both_ways_keep_the_same_rows, is_ranked, kept, one_best_row_per_model, picked, ranked_before,
    speed_order, valid_positions, Row, SortKey,
};

verus! {

/// `a` is at least as good a verdict as `b`: good before usable before slow
/// before what does not run at all.
pub open spec fn as_good(a: Verdict, b: Verdict) -> bool {
    match b {
        Verdict::WontFit => true,
        Verdict::Slow => a != Verdict::WontFit,
        Verdict::Usable => a == Verdict::Good || a == Verdict::Usable,
        Verdict::Good => a == Verdict::Good,
    }
}

/// `b` stands for `a`: it is the same model, runs at least as well, and where it
/// runs as well it is no smaller a file.
pub open spec fn stands_for(b: Row, a: Row) -> bool {
    &&& b.model_id@ == a.model_id@
    &&& as_good(b.prediction.verdict, a.prediction.verdict)
    &&& b.prediction.verdict == a.prediction.verdict ==> b.quant.bytes >= a.quant.bytes
}

/// Some row of the first model comes before every row of the second.
pub open spec fn comes_up_before(rows: Seq<Row>, idx: Seq<usize>, first: Seq<char>, second: Seq<char>) -> bool {
    exists|a: int|
        0 <= a < idx.len() && rows[(#[trigger] idx[a]) as int].model_id@ == first && forall|b: int|
            0 <= b < idx.len() && rows[(#[trigger] idx[b]) as int].model_id@ == second ==> a < b
}

/// Of all versions of a model the one is kept that runs best, and of those that
/// run as well the largest file. Every model is kept once, by one of its own
/// rows, and the models stay in the order they came up in.
pub proof fn the_version_kept_runs_best_at_the_largest_size(rows: Seq<Row>, idx: Seq<usize>)
    requires
        valid_positions(idx, rows.len()),
    ensures
        forall|k: int| #![trigger idx[k]]
            0 <= k < idx.len() ==> exists|p: int|
                0 <= p < best_of(rows, idx).len() && stands_for(rows[(#[trigger] best_of(rows, idx)[p]) as int], rows[idx[k] as int]),
        forall|i: int| 0 <= i < best_of(rows, idx).len() ==> idx.contains(#[trigger] best_of(rows, idx)[i]),
        forall|i: int, j: int|
            0 <= i < j < best_of(rows, idx).len() ==> rows[(#[trigger] best_of(rows, idx)[i]) as int].model_id@ != rows[(
            #[trigger] best_of(rows, idx)[j]) as int].model_id@,
        forall|i: int, j: int|
            0 <= i < j < best_of(rows, idx).len() ==> comes_up_before(
                rows,
                idx,
                rows[(#[trigger] best_of(rows, idx)[i]) as int].model_id@,
                rows[(#[trigger] best_of(rows, idx)[j]) as int].model_id@,
            ),
{
    one_best_row_per_model(rows, idx);
    let best = best_of(rows, idx);
    assert forall|k: int| #![trigger idx[k]] 0 <= k < idx.len() implies exists|p: int|
        0 <= p < best.len() && stands_for(rows[(#[trigger] best[p]) as int], rows[idx[k] as int]) by {
        assert(kept(rows, best, idx[k]));
        let p = choose|p: int|
            0 <= p < best.len() && rows[(#[trigger] best[p]) as int].model_id@ == rows[idx[k] as int].model_id@ && !crate::report::better(
                rows[idx[k] as int],
                rows[best[p] as int],
            );
        assert(stands_for(rows[best[p] as int], rows[idx[k] as int]));
    }
    lemma_models_in_order(rows, idx);
}

proof fn lemma_models_in_order(rows: Seq<Row>, idx: Seq<usize>)
    requires
        valid_positions(idx, rows.len()),
    ensures
        forall|i: int, j: int|
            0 <= i < j < best_of(rows, idx).len() ==> comes_up_before(
                rows,
                idx,
                rows[(#[trigger] best_of(rows, idx)[i]) as int].model_id@,
                rows[(#[trigger] best_of(rows, idx)[j]) as int].model_id@,
            ),
    decreases idx.len(),
{
    if idx.len() > 0 {
        let init = idx.drop_last();
        let n = idx.len() - 1;
        assert forall|i: int| 0 <= i < init.len() implies (#[trigger] init[i]) < rows.len() by {
            assert(init[i] == idx[i]);
        }
        lemma_models_in_order(rows, init);
        one_best_row_per_model(rows, init);
        one_best_row_per_model(rows, idx);
        let rest = best_of(rows, init);
        let best = best_of(rows, idx);
        let row = rows[idx.last() as int];
        crate::report::lemma_model_at(rows, rest, row);
        assert forall|i: int, j: int| 0 <= i < j < best.len() implies comes_up_before(
            rows,
            idx,
            rows[(#[trigger] best[i]) as int].model_id@,
            rows[(#[trigger] best[j]) as int].model_id@,
        ) by {
            let (x, y) = (rows[best[i] as int].model_id@, rows[best[j] as int].model_id@);
            assert(i < rest.len());
            assert(rows[rest[i] as int].model_id@ == x);
            if j < rest.len() {
                assert(rows[rest[j] as int].model_id@ == y);
                assert(comes_up_before(rows, init, x, y));
                let a = choose|a: int|
                    0 <= a < init.len() && rows[(#[trigger] init[a]) as int].model_id@ == x && forall|b: int|
                        0 <= b < init.len() && rows[(#[trigger] init[b]) as int].model_id@ == y ==> a < b;
                assert(idx[a] == init[a]);
                assert forall|b: int| 0 <= b < idx.len() && rows[(#[trigger] idx[b]) as int].model_id@ == y implies a < b by {
                    if b < n {
                        assert(init[b] == idx[b]);
                    }
                }
            } else {
                // The last row is the first of its model.
                assert(init.contains(rest[i]));
                let a = choose|a: int| 0 <= a < init.len() && init[a] == rest[i];
                assert(idx[a] == rest[i]);
                assert forall|b: int| 0 <= b < idx.len() && rows[(#[trigger] idx[b]) as int].model_id@ == y implies a < b by {
                    if b < n {
                        assert(init[b] == idx[b]);
                        assert(kept(rows, rest, init[b]));
                        let p = choose|p: int|
                            0 <= p < rest.len() && rows[(#[trigger] rest[p]) as int].model_id@ == rows[init[b] as int].model_id@
                                && !crate::report::better(rows[init[b] as int], rows[rest[p] as int]);
                        assert(rows[rest[p] as int].model_id@ == y);
                    }
                }
            }
        }
    }
}

/// The same of rows that are handed over whole.
pub proof fn the_rows_kept_run_best_at_the_largest_size(rows: Seq<Row>)
    requires
        rows.len() <= usize::MAX,
    ensures
        forall|k: int| #![trigger rows[k]]
            0 <= k < rows.len() ==> exists|p: int| 0 <= p < best_rows(rows).len() && stands_for(#[trigger] best_rows(rows)[p], rows[k]),
        forall|i: int| 0 <= i < best_rows(rows).len() ==> rows.contains(#[trigger] best_rows(rows)[i]),
        forall|i: int, j: int|
            0 <= i < j < best_rows(rows).len() ==> (#[trigger] best_rows(rows)[i]).model_id@ != (#[trigger] best_rows(rows)[j]).model_id@,
{
    let idx = all_positions(rows.len());
    let best = best_of(rows, idx);
    both_ways_keep_the_same_rows(rows);
    the_version_kept_runs_best_at_the_largest_size(rows, idx);
    assert forall|k: int| #![trigger rows[k]] 0 <= k < rows.len() implies exists|p: int|
        0 <= p < best_rows(rows).len() && stands_for(#[trigger] best_rows(rows)[p], rows[k]) by {
        assert(idx[k] == k as usize);
        let p = choose|p: int| 0 <= p < best.len() && stands_for(rows[(#[trigger] best[p]) as int], rows[idx[k] as int]);
        assert(best_rows(rows)[p] == rows[best[p] as int]);
    }
    assert forall|i: int| 0 <= i < best_rows(rows).len() implies rows.contains(#[trigger] best_rows(rows)[i]) by {
        assert(best_rows(rows)[i] == rows[best[i] as int]);
        assert(idx.contains(best[i]));
        assert(rows[best[i] as int] == best_rows(rows)[i]);
    }
    assert forall|i: int, j: int| 0 <= i < j < best_rows(rows).len() implies (#[trigger] best_rows(rows)[i]).model_id@ != (
    #[trigger] best_rows(rows)[j]).model_id@ by {
        assert(best_rows(rows)[i] == rows[best[i] as int]);
        assert(best_rows(rows)[j] == rows[best[j] as int]);
    }
}

// ---------------------------------------------------------------------- orders

/// A row that may stand before another by what was asked for. By verdict the
/// better one leads, then the faster, then the one with more context; by speed
/// and by context what does not run comes last.
pub open spec fn may_lead(a: Prediction, b: Prediction, sort: SortKey) -> bool {
    let (fast, even) = (speed_order(a.decode_tok_s) < speed_order(b.decode_tok_s), speed_order(a.decode_tok_s) == speed_order(b.decode_tok_s));
    let both_run = a.verdict != Verdict::WontFit && b.verdict != Verdict::WontFit;
    let neither = a.verdict == Verdict::WontFit && b.verdict == Verdict::WontFit;
    match sort {
        SortKey::Verdict => as_good(a.verdict, b.verdict) && (a.verdict == b.verdict ==> fast || (even && a.max_context >= b.max_context)),
        SortKey::Decode => if both_run || neither {
            fast || (even && a.max_context >= b.max_context)
        } else {
            b.verdict == Verdict::WontFit
        },
        SortKey::Context => if both_run || neither {
            a.max_context > b.max_context || (a.max_context == b.max_context && (fast || even))
        } else {
            b.verdict == Verdict::WontFit
        },
    }
}

/// Rows are listed in the order that was asked for: none stands before one that
/// it may not lead, and those that are asked for are all there.
pub proof fn rows_are_listed_in_order(r: Seq<usize>, rows: Seq<Row>, idx: Seq<usize>, sort: SortKey)
    requires
        is_ranked(r, rows, idx, sort),
        idx.len() <= usize::MAX,
    ensures
        r.len() == idx.len(),
        forall|i: int, j: int|
            0 <= i < j < r.len() ==> may_lead(rows[(#[trigger] r[i]) as int].prediction, rows[(#[trigger] r[j]) as int].prediction, sort),
        forall|k: int| 0 <= k < idx.len() ==> r.contains(#[trigger] idx[k]),
        forall|i: int| 0 <= i < r.len() ==> idx.contains(#[trigger] r[i]),
{
    let before = ranked_before(rows, idx, sort);
    let o = choose|o: Seq<usize>| in_order(o, idx.len(), before) && r == #[trigger] picked(idx, o);
    lemma_hits_all(o, idx.len(), before);
    assert forall|i: int, j: int| 0 <= i < j < r.len() implies may_lead(
        rows[(#[trigger] r[i]) as int].prediction,
        rows[(#[trigger] r[j]) as int].prediction,
        sort,
    ) by {
        assert(before(o[i] as int, o[j] as int));
        assert(r[i] == idx[o[i] as int] && r[j] == idx[o[j] as int]);
    }
    assert forall|k: int| 0 <= k < idx.len() implies r.contains(#[trigger] idx[k]) by {
        assert(o.contains(k as usize));
        let i = choose|i: int| 0 <= i < o.len() && o[i] == k as usize;
        assert(r[i] == idx[k]);
    }
    assert forall|i: int| 0 <= i < r.len() implies idx.contains(#[trigger] r[i]) by {
        assert(r[i] == idx[o[i] as int]);
    }
}

/// A range that is no slower never ranks behind.
pub proof fn a_faster_range_ranks_no_later(slow: (Double, Double), fast: (Double, Double))
    requires
        slow.0.finite() && slow.1.finite() && fast.0.finite() && fast.1.finite(),
        !slow.0.negative() && !slow.1.negative() && !fast.0.negative() && !fast.1.negative(),
        slow.0.units() + slow.1.units() <= fast.0.units() + fast.1.units() <= pow2(1974),
    ensures
        speed_order(fast) <= speed_order(slow),
{
    let (two, thousand) = (Double { bits: TWO_BITS }, Double { bits: THOUSAND_BITS });
    let (a, b) = (slow.0.sum(slow.1), fast.0.sum(fast.1));
    sums_are_near(slow.0, slow.1);
    sums_are_near(fast.0, fast.1);
    assert(a.magnitude() <= b.magnitude()) by {
        lemma_sum_order(slow, fast);
    }
    lemma_between(two, 0x400, 3);
    lemma_between(thousand, 0x408, 20);
    lemma_positive(two, 3);
    quotients_keep_order(a, b, two);
    let (c, d) = (a.quotient(two), b.quotient(two));
    assert(d.finite()) by {
        lemma_half_is_finite(b);
    }
    products_keep_order(c, d, thousand);
    lemma_turned_order(c.product(thousand), d.product(thousand));
}

proof fn lemma_sum_order(a: (Double, Double), b: (Double, Double))
    requires
        a.0.finite() && a.1.finite() && b.0.finite() && b.1.finite(),
        !a.0.negative() && !a.1.negative() && !b.0.negative() && !b.1.negative(),
        a.0.units() + a.1.units() <= b.0.units() + b.1.units(),
        a.0.sum(a.1).finite() && b.0.sum(b.1).finite(),
    ensures
        a.0.sum(a.1).magnitude() <= b.0.sum(b.1).magnitude(),
{
    rounding_keeps_order(a.0.units() + a.1.units(), b.0.units() + b.1.units(), 1);
    reveal(Double::sum);
}

proof fn lemma_half_is_finite(b: Double)
    requires
        b.finite() && !b.negative(),
    ensures
        b.quotient(Double { bits: TWO_BITS }).finite(),
{
    let two = Double { bits: TWO_BITS };
    lemma_between(two, 0x400, 3);
    lemma_positive(two, 3);
    let (x, t) = (b.units(), pow2(1074));
    lemma_two_units();
    assert(two.units() == 2 * t);
    lemma_pow2_grows(0, 1074);
    crate::double::laws::a_double_rounds_to_itself(b);
    crate::double::arith::lemma_magnitude_scale(x, 1, 2 * t);
    assert(1 * (2 * t) == 2 * t);
    assert(x * t <= x * (2 * t)) by (nonlinear_arith);
    rounding_keeps_order(x * t, x * (2 * t), 2 * t);
    reveal(Double::quotient);
}

proof fn lemma_two_units()
    ensures
        (Double { bits: TWO_BITS }).units() == 2 * one(),
        (Double { bits: THOUSAND_BITS }).units() == 1000 * one(),
{
    let (two, thousand) = (Double { bits: TWO_BITS }, Double { bits: THOUSAND_BITS });
    lemma_powers_of_two();
    assert(two.significand() == 0x10_0000_0000_0000 && two.exponent() == -51);
    assert(thousand.significand() == 0x1F_4000_0000_0000 && thousand.exponent() == -43);
    lemma_exactly(two, 0x10_0000_0000_0000, 51, 2);
    lemma_exactly(thousand, 0x1F_4000_0000_0000, 43, 1000);
}

/// What is larger is less below nothing.
proof fn lemma_turned_order(x: Double, y: Double)
    requires
        !x.nan() && !y.nan(),
        !x.negative() && !y.negative(),
        x.magnitude() <= y.magnitude(),
    ensures
        y.opposite().to_integer() <= x.opposite().to_integer(),
{
    let (p, q) = (x.opposite(), y.opposite());
    assert(p.magnitude() == x.magnitude() && p.negative());
    assert(q.magnitude() == y.magnitude() && q.negative());
    reveal(Double::to_integer);
    if y.finite() {
        units_follow_magnitudes(x, y);
        assert(p.units() == x.units() && q.units() == y.units());
        lemma_pow2_grows(0, 1074);
        vstd::arithmetic::div_mod::lemma_div_is_ordered(x.units() as int, y.units() as int, pow2(1074) as int);
    }
}

/// A range whose middle is faster by two thousandths of a token per second or
/// more ranks before, up to speeds that no machine has.
pub proof fn a_clearly_faster_range_ranks_first(slow: (Double, Double), fast: (Double, Double))
    requires
        ordinary(slow.0, 40) && ordinary(slow.1, 40) && ordinary(fast.0, 40) && ordinary(fast.1, 40),
        (fast.0.units() + fast.1.units()) * 500 >= (slow.0.units() + slow.1.units()) * 500 + 2 * one(),
        fast.0.units() + fast.1.units() <= pow2(1094),
    ensures
        speed_order(fast) < speed_order(slow),
{
    lemma_pow2_grows(1094, 1115);
    let (x, y) = (lemma_thousandths(slow), lemma_thousandths(fast));
    let (a, b) = ((slow.0.units() + slow.1.units()) * 500, (fast.0.units() + fast.1.units()) * 500);
    let t = one();
    let m = SLACK as int;
    crate::double::lemma_pow2_adds(20, 1074);
    lemma_powers_of_two();
    lemma_pow2_grows(2, 1074);
    let (u, w) = (slow.0.units() + slow.1.units(), fast.0.units() + fast.1.units());
    assert(a <= 500 * 0x10_0000 * t && b <= 500 * 0x10_0000 * t) by (nonlinear_arith)
        requires
            a == u * 500,
            b == w * 500,
            a <= b,
            w <= 0x10_0000 * t,
    ;
    // Rounding moves neither by half a thousandth.
    assert(x <= a + t / 2 && b <= y + t / 2 && y <= b + t / 2) by {
        lemma_hardly_moves(x, a, t);
        lemma_hardly_moves(y, b, t);
    }
    vstd::arithmetic::div_mod::lemma_fundamental_div_mod(x as int, t as int);
    vstd::arithmetic::div_mod::lemma_mod_bound(x as int, t as int);
    vstd::arithmetic::div_mod::lemma_fundamental_div_mod(y as int, t as int);
    vstd::arithmetic::div_mod::lemma_mod_bound(y as int, t as int);
    let (p, q) = (x as int / t as int, y as int / t as int);
    assert(p < q) by (nonlinear_arith)
        requires
            y >= x + t,
            x == t * p + x as int % t as int,
            y == t * q + y as int % t as int,
            0 <= x as int % t as int,
            0 <= y as int % (t as int) < t,
            t > 0,
    ;
    assert(q <= 0x4000_0000) by (nonlinear_arith)
        requires
            y == t * q + y as int % t as int,
            0 <= y as int % t as int,
            y <= 500 * 0x10_0000 * t + t,
            t > 0,
    ;
}

proof fn lemma_hardly_moves(x: nat, a: nat, t: nat)
    requires
        near(x, a, 7),
        a <= 500 * 0x10_0000 * t,
        t >= 4,
    ensures
        x <= a + t / 2,
        a <= x + t / 2,
{
    let m = SLACK as int;
    let (x, a, t) = (x as int, a as int, t as int);
    assert(4 * (x - a) <= t && 4 * (a - x) <= t) by (nonlinear_arith)
        requires
            x * m <= a * (m + 7),
            a * m <= x * (m + 7),
            0 <= a <= 500 * 0x10_0000 * t,
            x >= 0,
            m == 0x4_0000_0000_0000,
            t >= 4,
    ;
}

/// The middle of a range in thousandths, near to what it stands for.
proof fn lemma_thousandths(r: (Double, Double)) -> (x: nat)
    requires
        ordinary(r.0, 40) && ordinary(r.1, 40),
        r.0.units() + r.1.units() <= pow2(1115),
    ensures
        near(x, (r.0.units() + r.1.units()) * 500, 7),
        x / one() <= i64::MAX ==> speed_order(r) == -((x / one()) as int),
        speed_order(r) <= 0,
{
    let (two, thousand) = (Double { bits: TWO_BITS }, Double { bits: THOUSAND_BITS });
    let t = one();
    lemma_nothing();
    lemma_two_units();
    lemma_between(two, 0x400, 3);
    lemma_between(thousand, 0x408, 20);
    lemma_pow2_grows(1115, 1974);
    sums_are_near(r.0, r.1);
    let s = r.0.sum(r.1);
    let y = r.0.units() + r.1.units();
    lemma_pow2_grows(1033, 1034);
    assert(ordinary(s, 43)) by {
        let m = SLACK as int;
        let (a, b) = (s.units() as int, y as int);
        assert(a <= 2 * b && b <= 2 * a) by (nonlinear_arith)
            requires
                a * m <= b * (m + 1),
                b * m <= a * (m + 1),
                m >= 1,
                a >= 0,
                b >= 0,
        ;
        assert(pow2(1034) == 2 * pow2(1033));
        lemma_pow2_grows(1031, 1033);
        assert(pow2(1116) == 2 * pow2(1115));
        lemma_pow2_grows(1116, 1117);
    }
    quotients_are_near(s, two, 43, 3);
    let h = s.quotient(two);
    products_are_near(h, thousand, 46, 20);
    let z = h.product(thousand);
    let x = z.units();
    assert(h.units() * (2 * t) == (h.units() * 2) * t) by (nonlinear_arith);
    crate::double::error::nearness_cancels(h.units() * 2, s.units(), t, 1);
    nearness_carries_over(h.units() * 2, s.units(), y, 1, 1);
    assert(h.units() * (1000 * t) == (h.units() * 1000) * t) by (nonlinear_arith);
    crate::double::error::nearness_cancels(x, h.units() * 1000, t, 1);
    nearness_scales(h.units() * 2, y, 500, 3);
    assert((h.units() * 2) * 500 == h.units() * 1000);
    nearness_carries_over(x, h.units() * 1000, y * 500, 1, 3);
    nearness_widens(x, y * 500, 5, 7);
    let o = z.opposite();
    assert(o.magnitude() == z.magnitude() && o.negative());
    assert(o.units() == z.units());
    assert(speed_order(r) <= 0 && (x / t <= i64::MAX ==> speed_order(r) == -((x / t) as int))) by {
        reveal(Double::to_integer);
    }
    x
}

} // verus!
