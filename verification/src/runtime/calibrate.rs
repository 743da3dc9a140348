//! Comparing prediction against measurement, and recording the difference.
//!
//! A prediction is `eta / raw_seconds_per_token`, and `eta` is the one term
//! that cannot be computed; inverting a real run gives it. Accumulating that
//! across models, quantisations and machines is the calibration dataset.

use vstd::prelude::*;
use crate::chars::{copy, dec, decimal};
use crate::double::{Double, BILLION_BITS, TWO_BITS};
use crate::json::object::{bare_member, bare_of, flat_object, member_views, text_member, text_of, write_object, Member, MemberView};
use crate::json::hex_char;
use crate::predict::Prediction;
use crate::report::{bool_str, bool_text};
use crate::runtime::RunStats;
use vstd::utf8::encode_utf8;

verus! {

pub struct Calibration {
    pub model: String,
    pub quant: String,
    pub predicted: (Double, Double),
    pub actual: Double,
    /// Signed error of the range midpoint, percent. Negative means that the
    /// prediction was slower than reality.
    pub error_pct: Double,
    /// Whether the truth landed inside the published range: the promise that
    /// was made.
    pub within_range: bool,
    pub assumed_eta: Double,
    pub implied_eta: Double,
    pub actual_prefill_tok_s: Double,
    pub predicted_prefill_tok_s: Option<Double>,
    /// Measured prefill against the machine's own f32 peak. It routinely
    /// exceeds 1: it is a ratio of devices and paths.
    pub implied_prefill_scale: Double,
}

/// The measurement is inside the range.
pub open spec fn in_range(actual: Double, range: (Double, Double)) -> bool {
    range.0.at_most(actual) && actual.at_most(range.1)
}

/// How far the middle of a range is from a measurement, in percent of it. An
/// error is stated only of a rate that was measured.
pub open spec fn error_of(range: (Double, Double), actual: Double) -> Double {
    if (Double { bits: 0 }).below(actual) {
        range.0.sum(range.1).quotient(Double { bits: TWO_BITS }).difference(actual).quotient(actual).in_percent()
    } else {
        Double { bits: 0 }
    }
}

/// Prefill against the machine's own peak, where that was measured.
pub open spec fn prefill_scale_of(prefill: Double, active_params: nat, gflops: Double) -> Double {
    let flops = gflops.product(Double { bits: BILLION_BITS });
    if (Double { bits: 0 }).below(flops) {
        prefill.product(Double { bits: TWO_BITS }).product(Double::count(active_params)).quotient(flops)
    } else {
        Double { bits: 0 }
    }
}

impl Calibration {
    /// The calibration holds the run against the prediction.
    pub open spec fn is_of(self, pred: Prediction, run: RunStats, active_params: nat, gflops: Double) -> bool {
        &&& self.predicted == pred.decode_tok_s
        &&& self.actual == run.decode_tok_s
        &&& self.error_pct == error_of(pred.decode_tok_s, run.decode_tok_s)
        &&& self.within_range == in_range(run.decode_tok_s, pred.decode_tok_s)
        &&& self.assumed_eta == pred.assumed_eta
        &&& self.implied_eta == run.decode_tok_s.product(pred.raw_seconds_per_token)
        &&& self.actual_prefill_tok_s == run.prefill_tok_s
        &&& self.predicted_prefill_tok_s == pred.prefill_tok_s
        &&& self.implied_prefill_scale == prefill_scale_of(run.prefill_tok_s, active_params, gflops)
    }
}

/// Hold a run against its prediction. The efficiency it implies is what the
/// dataset accumulates: the measured rate times the time per token at full
/// bandwidth.
pub fn compare(model: &str, quant: &str, pred: &Prediction, run: &RunStats, active_params: u64, gflops: Double) -> (r: Calibration)
    ensures
        r.model@ == model@,
        r.quant@ == quant@,
        r.predicted == pred.decode_tok_s,
        r.actual == run.decode_tok_s,
        r.error_pct == error_of(pred.decode_tok_s, run.decode_tok_s),
        r.within_range == in_range(run.decode_tok_s, pred.decode_tok_s),
        r.assumed_eta == pred.assumed_eta,
        r.implied_eta == run.decode_tok_s.product(pred.raw_seconds_per_token),
        r.actual_prefill_tok_s == run.prefill_tok_s,
        r.predicted_prefill_tok_s == pred.prefill_tok_s,
        r.implied_prefill_scale == prefill_scale_of(run.prefill_tok_s, active_params as nat, gflops),
        r.is_of(*pred, *run, active_params as nat, gflops),
{
    let zero = Double { bits: 0 };
    let two = Double { bits: TWO_BITS };
    let (low, high) = pred.decode_tok_s;
    let actual = run.decode_tok_s;
    let flops = gflops.times(Double { bits: BILLION_BITS });
    Calibration {
        model: copy(model),
        quant: copy(quant),
        predicted: pred.decode_tok_s,
        actual,
        error_pct: if zero.lt(actual) {
            low.plus(high).over(two).less(actual).over(actual).percent()
        } else {
            zero
        },
        within_range: low.le(actual) && actual.le(high),
        assumed_eta: pred.assumed_eta,
        implied_eta: actual.times(pred.raw_seconds_per_token),
        actual_prefill_tok_s: run.prefill_tok_s,
        predicted_prefill_tok_s: pred.prefill_tok_s,
        implied_prefill_scale: if zero.lt(flops) {
            run.prefill_tok_s.times(two).times(Double::of_count(active_params)).over(flops)
        } else {
            zero
        },
    }
}

/// What a record holds, in the order it is written.
pub open spec fn record_members(
    hw: Seq<char>,
    os: Seq<char>,
    virt: Seq<char>,
    backend: Seq<char>,
    runtime: Seq<char>,
    ram_bw: Double,
    vram_bw: Double,
    disk_bw: Double,
    gflops: Double,
    threads: u32,
    kv: Seq<char>,
    ctx: u32,
    active_params: u64,
    cal: Calibration,
    run: RunStats,
) -> Seq<MemberView> {
    seq![
        text_member("hw"@, hw),
        text_member("os"@, os),
        text_member("virt"@, virt),
        text_member("backend"@, backend),
        text_member("runtime"@, runtime),
        bare_member("ram_bw_gbs"@, ram_bw.text(2)),
        bare_member("vram_bw_gbs"@, vram_bw.text(2)),
        bare_member("disk_bw_gbs"@, disk_bw.text(2)),
        bare_member("gflops"@, gflops.text(1)),
        bare_member("threads"@, dec(threads as nat)),
        text_member("kv"@, kv),
        text_member("model"@, cal.model@),
        text_member("quant"@, cal.quant@),
        bare_member("ctx"@, dec(ctx as nat)),
        bare_member("prompt_tokens"@, dec(run.prompt_tokens as nat)),
        bare_member("eval_tokens"@, dec(run.eval_tokens as nat)),
        bare_member("predicted_lo"@, cal.predicted.0.text(3)),
        bare_member("predicted_hi"@, cal.predicted.1.text(3)),
        bare_member("actual_decode_tok_s"@, cal.actual.text(3)),
        bare_member("actual_prefill_tok_s"@, cal.actual_prefill_tok_s.text(2)),
        bare_member("assumed_eta"@, cal.assumed_eta.text(4)),
        bare_member("implied_eta"@, cal.implied_eta.text(4)),
        bare_member("implied_prefill_scale"@, cal.implied_prefill_scale.text(4)),
        bare_member("active_params"@, dec(active_params as nat)),
        bare_member("error_pct"@, cal.error_pct.text(1)),
        bare_member("within_range"@, bool_text(cal.within_range)),
    ]
}

/// One line of the calibration dataset.
pub open spec fn record_text(
    hw: Seq<char>,
    os: Seq<char>,
    virt: Seq<char>,
    backend: Seq<char>,
    runtime: Seq<char>,
    ram_bw: Double,
    vram_bw: Double,
    disk_bw: Double,
    gflops: Double,
    threads: u32,
    kv: Seq<char>,
    ctx: u32,
    active_params: u64,
    cal: Calibration,
    run: RunStats,
) -> Seq<char> {
    flat_object(record_members(hw, os, virt, backend, runtime, ram_bw, vram_bw, disk_bw, gflops, threads, kv, ctx, active_params, cal, run))
}

/// One line of the calibration dataset. It holds no hostname, username, serial
/// or path: a hardware profile only.
pub fn record_line(
    hw: &str,
    os: &str,
    virt: &str,
    backend: &str,
    runtime: &str,
    ram_bw: Double,
    vram_bw: Double,
    disk_bw: Double,
    gflops: Double,
    threads: u32,
    kv: &str,
    ctx: u32,
    active_params: u64,
    cal: &Calibration,
    run: &RunStats,
) -> (o: String)
    ensures
        o@ == record_text(
            hw@,
            os@,
            virt@,
            backend@,
            runtime@,
            ram_bw,
            vram_bw,
            disk_bw,
            gflops,
            threads,
            kv@,
            ctx,
            active_params,
            *cal,
            *run,
        ),
{
    let members: Vec<Member> = vec![
        text_of("hw", hw),
        text_of("os", os),
        text_of("virt", virt),
        text_of("backend", backend),
        text_of("runtime", runtime),
        bare_of("ram_bw_gbs", ram_bw.fixed(2)),
        bare_of("vram_bw_gbs", vram_bw.fixed(2)),
        bare_of("disk_bw_gbs", disk_bw.fixed(2)),
        bare_of("gflops", gflops.fixed(1)),
        bare_of("threads", decimal(threads as u128)),
        text_of("kv", kv),
        text_of("model", cal.model.as_str()),
        text_of("quant", cal.quant.as_str()),
        bare_of("ctx", decimal(ctx as u128)),
        bare_of("prompt_tokens", decimal(run.prompt_tokens as u128)),
        bare_of("eval_tokens", decimal(run.eval_tokens as u128)),
        bare_of("predicted_lo", cal.predicted.0.fixed(3)),
        bare_of("predicted_hi", cal.predicted.1.fixed(3)),
        bare_of("actual_decode_tok_s", cal.actual.fixed(3)),
        bare_of("actual_prefill_tok_s", cal.actual_prefill_tok_s.fixed(2)),
        bare_of("assumed_eta", cal.assumed_eta.fixed(4)),
        bare_of("implied_eta", cal.implied_eta.fixed(4)),
        bare_of("implied_prefill_scale", cal.implied_prefill_scale.fixed(4)),
        bare_of("active_params", decimal(active_params as u128)),
        bare_of("error_pct", cal.error_pct.fixed(1)),
        bare_of("within_range", copy(bool_str(cal.within_range))),
    ];
    assert(member_views(members@) =~= record_members(
        hw@,
        os@,
        virt@,
        backend@,
        runtime@,
        ram_bw,
        vram_bw,
        disk_bw,
        gflops,
        threads,
        kv@,
        ctx,
        active_params,
        *cal,
        *run,
    ));
    write_object(&members)
}

// --------------------------------------------------------------- fingerprints

/// FNV-1a over the bytes.
pub open spec fn fnv(b: Seq<u8>) -> u64
    decreases b.len(),
{
    if b.len() == 0 {
        0xcbf2_9ce4_8422_2325
    } else {
        (((fnv(b.drop_last()) ^ (b.last() as u64)) as nat * 0x100_0000_01b3) % 0x1_0000_0000_0000_0000) as u64
    }
}

/// Exactly `places` hexadecimal digits of `n`.
pub open spec fn hex_places(n: nat, places: nat) -> Seq<char>
    decreases places,
{
    if places == 0 {
        Seq::empty()
    } else {
        hex_places(n / 16, (places - 1) as nat).push(hex_char((n % 16) as int))
    }
}

/// A profile's fingerprint.
pub open spec fn fingerprint_text(profile: Seq<char>) -> Seq<char> {
    hex_places(fnv(encode_utf8(profile)) as nat, 16)
}

fn hex_digit_char(d: u8) -> (c: char)
    requires
        d < 16,
    ensures
        c == hex_char(d as int),
{
    if d < 10 {
        (48u8 + d) as char
    } else {
        (87u8 + d) as char
    }
}

fn hex_text(n: u64, places: u8) -> (s: String)
    ensures
        s@ == hex_places(n as nat, places as nat),
    decreases places,
{
    if places == 0 {
        String::new()
    } else {
        let mut s = hex_text(n / 16, places - 1);
        s.push(hex_digit_char((n % 16) as u8));
        s
    }
}

/// Stable, non-identifying hash of a hardware profile.
///
/// Grouping is what it is for, not security: records from the same machine
/// must land in the same bucket.
pub fn fingerprint(profile: &str) -> (r: String)
    ensures
        r@ == fingerprint_text(profile@),
{
    let b = profile.as_bytes();
    let mut h: u64 = 0xcbf2_9ce4_8422_2325;
    let mut i: usize = 0;
    while i < b.len()
        invariant
            i <= b@.len(),
            h == fnv(b@.subrange(0, i as int)),
        decreases b@.len() - i,
    {
        assert(b@.subrange(0, i + 1).drop_last() =~= b@.subrange(0, i as int));
        h = h ^ (b[i] as u64);
        h = h.wrapping_mul(0x100_0000_01b3);
        i += 1;
    }
    assert(b@.subrange(0, i as int) =~= b@);
    hex_text(h, 16)
}

/// A lower-case hexadecimal digit.
pub open spec fn is_hex_lower(c: char) -> bool {
    '0' <= c <= '9' || 'a' <= c <= 'f'
}

proof fn lemma_hex_places(n: nat, places: nat)
    ensures
        hex_places(n, places).len() == places,
        forall|i: int| 0 <= i < places ==> is_hex_lower(#[trigger] hex_places(n, places)[i]),
    decreases places,
{
    if places > 0 {
        let rest = hex_places(n / 16, (places - 1) as nat);
        lemma_hex_places(n / 16, (places - 1) as nat);
        assert forall|i: int| 0 <= i < places implies is_hex_lower(#[trigger] hex_places(n, places)[i]) by {
            if i < places - 1 {
                assert(hex_places(n, places)[i] == rest[i]);
            }
        }
    }
}

/// A fingerprint is sixteen lower-case hexadecimal digits, whatever the
/// profile.
pub proof fn a_fingerprint_is_sixteen_hex_digits(profile: Seq<char>)
    ensures
        fingerprint_text(profile).len() == 16,
        forall|i: int| 0 <= i < 16 ==> is_hex_lower(#[trigger] fingerprint_text(profile)[i]),
{
    lemma_hex_places(fnv(encode_utf8(profile)) as nat, 16);
}

} // verus!
