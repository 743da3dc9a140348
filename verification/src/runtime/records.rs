//! What is written into the dataset is what is read from it, and what is
//! shown before it is sent.

use vstd::prelude::*;
use crate::chars::{dec, uppercase};
use crate::cli::share::{field_at, field_names, FieldView};
use crate::double::Double;
use crate::fit::{only_finite, only_positive, record_in, RecordView};
use crate::json::object::{
    a_written_number_is_read_back, a_written_text_is_read_back, a_written_truth_is_read_back, all_plain, bare_member, is_first, is_number, lemma_dec_is_number,
    lemma_double_is_number, plain, text_member, MemberView,
};
use crate::json::number_in;
use crate::report::bool_text;
use crate::runtime::calibrate::{record_members, record_text, Calibration};
use crate::runtime::RunStats;
use crate::spec::family_of_label;

verus! {

/// A measurement that a record can hold: its texts need no escapes and its
/// numbers are numbers.
pub open spec fn recordable(
    hw: Seq<char>,
    os: Seq<char>,
    virt: Seq<char>,
    backend: Seq<char>,
    runtime: Seq<char>,
    ram_bw: Double,
    vram_bw: Double,
    disk_bw: Double,
    gflops: Double,
    threads: u32,
    kv: Seq<char>,
    ctx: u32,
    active_params: u64,
    cal: Calibration,
    run: RunStats,
) -> bool {
    &&& plain(hw)
    &&& plain(os)
    &&& plain(virt)
    &&& plain(backend)
    &&& plain(runtime)
    &&& plain(kv)
    &&& plain(cal.model@)
    &&& plain(cal.quant@)
    &&& ram_bw.finite()
    &&& vram_bw.finite()
    &&& disk_bw.finite()
    &&& gflops.finite()
    &&& cal.predicted.0.finite()
    &&& cal.predicted.1.finite()
    &&& cal.actual.finite()
    &&& cal.actual_prefill_tok_s.finite()
    &&& cal.assumed_eta.finite()
    &&& cal.implied_eta.finite()
    &&& cal.implied_prefill_scale.finite()
    &&& cal.error_pct.finite()
}

/// A number that tells a record's keys apart: the length, and both ends.
spec fn code(s: Seq<char>) -> int {
    s.len() * 65536 + s[0] as int * 256 + s.last() as int
}

/// Every member is the first of its name.
spec fn distinct(m: Seq<MemberView>) -> bool {
    forall|k: int| 0 <= k < m.len() ==> #[trigger] is_first(m, k)
}

/// Every value that is no text is a number, but for the last, a truth value.
spec fn numeric(m: Seq<MemberView>) -> bool {
    forall|k: int| 0 <= k < m.len() - 1 && !(#[trigger] m[k]).text ==> is_number(m[k].value)
}

proof fn lemma_first_by_code(m: Seq<MemberView>)
    requires
        forall|j: int, k: int| 0 <= j < k < m.len() ==> code((#[trigger] m[j]).key) != code((#[trigger] m[k]).key),
    ensures
        distinct(m),
{
    assert forall|k: int| 0 <= k < m.len() implies #[trigger] is_first(m, k) by {
        assert forall|j: int| 0 <= j < k implies (#[trigger] m[j]).key != m[k].key by {
            assert(code(m[j].key) != code(m[k].key));
        }
    }
}

spec fn key_codes() -> Seq<int> {
    seq![
        157815int, 159603int, 292468int, 483940int, 488037int, 684659int, 751219int, 746611int, 419699int, 488563int, 158582int, 355692int, 356724int, 222072int, 880755int, 746867int, 815215int, 815209int, 1270131int, 1335667int, 745825int, 747873int, 1403237int, 876915int, 615796int, 816997int
    ]
}

proof fn lemma_codes_differ()
    ensures
        forall|j: int, k: int| 0 <= j < k < 26 ==> #[trigger] key_codes()[j] != #[trigger] key_codes()[k],
{
}

/// The keys of a record are the fields of the disclosure list, in its order.
pub proof fn a_record_holds_the_disclosed_fields(
    hw: Seq<char>,
    os: Seq<char>,
    virt: Seq<char>,
    backend: Seq<char>,
    runtime: Seq<char>,
    ram_bw: Double,
    vram_bw: Double,
    disk_bw: Double,
    gflops: Double,
    threads: u32,
    kv: Seq<char>,
    ctx: u32,
    active_params: u64,
    cal: Calibration,
    run: RunStats,
)
    ensures
        record_members(hw, os, virt, backend, runtime, ram_bw, vram_bw, disk_bw, gflops, threads, kv, ctx, active_params, cal, run).len() == field_names().len(),
        forall|k: int|
            0 <= k < field_names().len() ==> (#[trigger] record_members(hw, os, virt, backend, runtime, ram_bw, vram_bw, disk_bw, gflops, threads, kv, ctx, active_params, cal, run)[k]).key == field_names()[k],
{
}

proof fn lemma_keys()
    ensures
        field_names().len() == 26,
        forall|k: int| 0 <= k < 26 ==> code(#[trigger] field_names()[k]) == key_codes()[k] && plain(field_names()[k]),
{
    let n = field_names();
    reveal_strlit("hw");
    reveal_strlit("os");
    reveal_strlit("virt");
    reveal_strlit("backend");
    reveal_strlit("runtime");
    reveal_strlit("ram_bw_gbs");
    reveal_strlit("vram_bw_gbs");
    reveal_strlit("disk_bw_gbs");
    reveal_strlit("gflops");
    reveal_strlit("threads");
    reveal_strlit("kv");
    reveal_strlit("model");
    reveal_strlit("quant");
    reveal_strlit("ctx");
    reveal_strlit("prompt_tokens");
    reveal_strlit("eval_tokens");
    reveal_strlit("predicted_lo");
    reveal_strlit("predicted_hi");
    reveal_strlit("actual_decode_tok_s");
    reveal_strlit("actual_prefill_tok_s");
    reveal_strlit("assumed_eta");
    reveal_strlit("implied_eta");
    reveal_strlit("implied_prefill_scale");
    reveal_strlit("active_params");
    reveal_strlit("error_pct");
    reveal_strlit("within_range");
    assert(code(n[0]) == key_codes()[0]);
    assert(code(n[1]) == key_codes()[1]);
    assert(code(n[2]) == key_codes()[2]);
    assert(code(n[3]) == key_codes()[3]);
    assert(code(n[4]) == key_codes()[4]);
    assert(code(n[5]) == key_codes()[5]);
    assert(code(n[6]) == key_codes()[6]);
    assert(code(n[7]) == key_codes()[7]);
    assert(code(n[8]) == key_codes()[8]);
    assert(code(n[9]) == key_codes()[9]);
    assert(code(n[10]) == key_codes()[10]);
    assert(code(n[11]) == key_codes()[11]);
    assert(code(n[12]) == key_codes()[12]);
    assert(code(n[13]) == key_codes()[13]);
    assert(code(n[14]) == key_codes()[14]);
    assert(code(n[15]) == key_codes()[15]);
    assert(code(n[16]) == key_codes()[16]);
    assert(code(n[17]) == key_codes()[17]);
    assert(code(n[18]) == key_codes()[18]);
    assert(code(n[19]) == key_codes()[19]);
    assert(code(n[20]) == key_codes()[20]);
    assert(code(n[21]) == key_codes()[21]);
    assert(code(n[22]) == key_codes()[22]);
    assert(code(n[23]) == key_codes()[23]);
    assert(code(n[24]) == key_codes()[24]);
    assert(code(n[25]) == key_codes()[25]);
}

proof fn lemma_distinct(m: Seq<MemberView>)
    requires
        m.len() == 26,
        forall|k: int| 0 <= k < 26 ==> (#[trigger] m[k]).key == field_names()[k],
    ensures
        distinct(m),
{
    lemma_keys();
    lemma_codes_differ();
    assert forall|j: int, k: int| 0 <= j < k < m.len() implies code((#[trigger] m[j]).key) != code((#[trigger] m[k]).key) by {
        assert(code(field_names()[j]) == key_codes()[j]);
        assert(code(field_names()[k]) == key_codes()[k]);
    }
    lemma_first_by_code(m);
}

proof fn lemma_values(
    hw: Seq<char>,
    os: Seq<char>,
    virt: Seq<char>,
    backend: Seq<char>,
    runtime: Seq<char>,
    ram_bw: Double,
    vram_bw: Double,
    disk_bw: Double,
    gflops: Double,
    threads: u32,
    kv: Seq<char>,
    ctx: u32,
    active_params: u64,
    cal: Calibration,
    run: RunStats,
)
    requires
        recordable(hw, os, virt, backend, runtime, ram_bw, vram_bw, disk_bw, gflops, threads, kv, ctx, active_params, cal, run),
    ensures
        forall|k: int| 0 <= k < 26 ==> plain((#[trigger] record_members(hw, os, virt, backend, runtime, ram_bw, vram_bw, disk_bw, gflops, threads, kv, ctx, active_params, cal, run)[k]).value),
        numeric(record_members(hw, os, virt, backend, runtime, ram_bw, vram_bw, disk_bw, gflops, threads, kv, ctx, active_params, cal, run)),
{
    let m = record_members(hw, os, virt, backend, runtime, ram_bw, vram_bw, disk_bw, gflops, threads, kv, ctx, active_params, cal, run);
    assert(m.len() == 26);
    lemma_text("hw"@, hw);
    lemma_text("os"@, os);
    lemma_text("virt"@, virt);
    lemma_text("backend"@, backend);
    lemma_text("runtime"@, runtime);
    lemma_double("ram_bw_gbs"@, ram_bw, 2);
    lemma_double("vram_bw_gbs"@, vram_bw, 2);
    lemma_double("disk_bw_gbs"@, disk_bw, 2);
    lemma_double("gflops"@, gflops, 1);
    lemma_count("threads"@, threads as nat);
    lemma_text("kv"@, kv);
    lemma_text("model"@, cal.model@);
    lemma_text("quant"@, cal.quant@);
    lemma_count("ctx"@, ctx as nat);
    lemma_count("prompt_tokens"@, run.prompt_tokens as nat);
    lemma_count("eval_tokens"@, run.eval_tokens as nat);
    lemma_double("predicted_lo"@, cal.predicted.0, 3);
    lemma_double("predicted_hi"@, cal.predicted.1, 3);
    lemma_double("actual_decode_tok_s"@, cal.actual, 3);
    lemma_double("actual_prefill_tok_s"@, cal.actual_prefill_tok_s, 2);
    lemma_double("assumed_eta"@, cal.assumed_eta, 4);
    lemma_double("implied_eta"@, cal.implied_eta, 4);
    lemma_double("implied_prefill_scale"@, cal.implied_prefill_scale, 4);
    lemma_count("active_params"@, active_params as nat);
    lemma_double("error_pct"@, cal.error_pct, 1);
    assert forall|k: int| 0 <= k < 25 implies fine(#[trigger] m[k]) by {
        lemma_one_of(k);
    }
    lemma_last(cal.within_range);
    lemma_fine(m);
}

/// A member that is read back: plain, and a text or a number.
#[verifier::opaque]
spec fn fine(m: MemberView) -> bool {
    plain(m.value) && (m.text || is_number(m.value))
}

proof fn lemma_text(key: Seq<char>, v: Seq<char>)
    requires
        plain(v),
    ensures
        fine(text_member(key, v)),
{
    reveal(fine);
}

proof fn lemma_double(key: Seq<char>, d: Double, places: nat)
    requires
        d.finite(),
    ensures
        fine(bare_member(key, d.text(places))),
{
    reveal(fine);
    lemma_double_is_number(d, places);
}

proof fn lemma_count(key: Seq<char>, n: nat)
    ensures
        fine(bare_member(key, dec(n))),
{
    reveal(fine);
    lemma_dec_is_number(n);
}

proof fn lemma_last(b: bool)
    ensures
        plain(bool_text(b)),
{
    reveal_strlit("true");
    reveal_strlit("false");
}

proof fn lemma_fine(m: Seq<MemberView>)
    requires
        m.len() == 26,
        forall|k: int| 0 <= k < 25 ==> fine(#[trigger] m[k]),
        plain(m[25].value),
    ensures
        forall|k: int| 0 <= k < 26 ==> plain((#[trigger] m[k]).value),
        numeric(m),
{
    reveal(fine);
}

proof fn lemma_one_of(k: int)
    requires
        0 <= k < 26,
    ensures
        k == 0 || k == 1 || k == 2 || k == 3 || k == 4 || k == 5 || k == 6 || k == 7 || k == 8 || k == 9 || k == 10 || k == 11 || k == 12 || k == 13 || k == 14 || k == 15 || k == 16 || k == 17 || k == 18 || k == 19 || k == 20 || k == 21 || k == 22 || k == 23 || k == 24 || k == 25,
{
}

proof fn lemma_members(
    hw: Seq<char>,
    os: Seq<char>,
    virt: Seq<char>,
    backend: Seq<char>,
    runtime: Seq<char>,
    ram_bw: Double,
    vram_bw: Double,
    disk_bw: Double,
    gflops: Double,
    threads: u32,
    kv: Seq<char>,
    ctx: u32,
    active_params: u64,
    cal: Calibration,
    run: RunStats,
)
    requires
        recordable(hw, os, virt, backend, runtime, ram_bw, vram_bw, disk_bw, gflops, threads, kv, ctx, active_params, cal, run),
    ensures
        all_plain(record_members(hw, os, virt, backend, runtime, ram_bw, vram_bw, disk_bw, gflops, threads, kv, ctx, active_params, cal, run)),
        distinct(record_members(hw, os, virt, backend, runtime, ram_bw, vram_bw, disk_bw, gflops, threads, kv, ctx, active_params, cal, run)),
        numeric(record_members(hw, os, virt, backend, runtime, ram_bw, vram_bw, disk_bw, gflops, threads, kv, ctx, active_params, cal, run)),
{
    let m = record_members(hw, os, virt, backend, runtime, ram_bw, vram_bw, disk_bw, gflops, threads, kv, ctx, active_params, cal, run);
    a_record_holds_the_disclosed_fields(hw, os, virt, backend, runtime, ram_bw, vram_bw, disk_bw, gflops, threads, kv, ctx, active_params, cal, run);
    lemma_keys();
    lemma_distinct(m);
    lemma_values(hw, os, virt, backend, runtime, ram_bw, vram_bw, disk_bw, gflops, threads, kv, ctx, active_params, cal, run);
    assert forall|j: int| 0 <= j < m.len() implies (#[trigger] m[j]).is_plain() by {
        assert(plain(field_names()[j]));
    }
}

/// A run that is recorded is the run that the fit reads: its texts as they
/// were, and its numbers with the decimals that a record keeps.
pub proof fn a_recorded_run_is_read_back(
    hw: Seq<char>,
    os: Seq<char>,
    virt: Seq<char>,
    backend: Seq<char>,
    runtime: Seq<char>,
    ram_bw: Double,
    vram_bw: Double,
    disk_bw: Double,
    gflops: Double,
    threads: u32,
    kv: Seq<char>,
    ctx: u32,
    active_params: u64,
    cal: Calibration,
    run: RunStats,
)
    requires
        recordable(hw, os, virt, backend, runtime, ram_bw, vram_bw, disk_bw, gflops, threads, kv, ctx, active_params, cal, run),
    ensures
        record_in(record_text(hw, os, virt, backend, runtime, ram_bw, vram_bw, disk_bw, gflops, threads, kv, ctx, active_params, cal, run)) == Some(
            RecordView {
                hw,
                backend,
                model: cal.model@,
                quant: cal.quant@,
                virt: Some(virt),
                quant_family: family_of_label(uppercase(cal.quant@)),
                implied_eta: number_in(cal.implied_eta.text(4)),
                error_pct: only_finite(Some(number_in(cal.error_pct.text(1)))),
                within_range: Some(cal.within_range),
                implied_prefill_scale: only_positive(Some(number_in(cal.implied_prefill_scale.text(4)))),
            },
        ),
{
    let m = record_members(hw, os, virt, backend, runtime, ram_bw, vram_bw, disk_bw, gflops, threads, kv, ctx, active_params, cal, run);
    lemma_members(hw, os, virt, backend, runtime, ram_bw, vram_bw, disk_bw, gflops, threads, kv, ctx, active_params, cal, run);
    assert(is_first(m, 0));
    a_written_text_is_read_back(m, 0);
    assert(is_first(m, 2));
    a_written_text_is_read_back(m, 2);
    assert(is_first(m, 3));
    a_written_text_is_read_back(m, 3);
    assert(is_first(m, 11));
    a_written_text_is_read_back(m, 11);
    assert(is_first(m, 12));
    a_written_text_is_read_back(m, 12);
    assert(is_first(m, 21) && is_number(m[21].value));
    a_written_number_is_read_back(m, 21);
    assert(is_first(m, 22) && is_number(m[22].value));
    a_written_number_is_read_back(m, 22);
    assert(is_first(m, 24) && is_number(m[24].value));
    a_written_number_is_read_back(m, 24);
    assert(is_first(m, 25));
    a_written_truth_is_read_back(m, 25, cal.within_range);
}

/// What is shown of a member: a text and a truth value as they are, a number as
/// numbers are printed.
pub open spec fn shown_member(m: MemberView, truth: bool) -> Seq<char> {
    if m.text || truth {
        m.value
    } else {
        number_in(m.value).shown_text()
    }
}

/// What is shown before a record is sent is all that it holds.
pub proof fn what_is_sent_is_what_is_shown(
    hw: Seq<char>,
    os: Seq<char>,
    virt: Seq<char>,
    backend: Seq<char>,
    runtime: Seq<char>,
    ram_bw: Double,
    vram_bw: Double,
    disk_bw: Double,
    gflops: Double,
    threads: u32,
    kv: Seq<char>,
    ctx: u32,
    active_params: u64,
    cal: Calibration,
    run: RunStats,
    k: int,
)
    requires
        recordable(hw, os, virt, backend, runtime, ram_bw, vram_bw, disk_bw, gflops, threads, kv, ctx, active_params, cal, run),
        0 <= k < field_names().len(),
    ensures
        field_at(record_text(hw, os, virt, backend, runtime, ram_bw, vram_bw, disk_bw, gflops, threads, kv, ctx, active_params, cal, run), field_names()[k]) == Some(
            FieldView {
                key: field_names()[k],
                value: shown_member(
                    record_members(hw, os, virt, backend, runtime, ram_bw, vram_bw, disk_bw, gflops, threads, kv, ctx, active_params, cal, run)[k],
                    k == 25,
                ),
            },
        ),
{
    let m = record_members(hw, os, virt, backend, runtime, ram_bw, vram_bw, disk_bw, gflops, threads, kv, ctx, active_params, cal, run);
    lemma_members(hw, os, virt, backend, runtime, ram_bw, vram_bw, disk_bw, gflops, threads, kv, ctx, active_params, cal, run);
    a_record_holds_the_disclosed_fields(hw, os, virt, backend, runtime, ram_bw, vram_bw, disk_bw, gflops, threads, kv, ctx, active_params, cal, run);
    assert(is_first(m, k));
    assert(m[k].key == field_names()[k]);
    if k == 25 {
        a_written_truth_is_read_back(m, 25, cal.within_range);
    } else if m[k].text {
        a_written_text_is_read_back(m, k);
    } else {
        assert(is_number(m[k].value));
        a_written_number_is_read_back(m, k);
    }
}

} // verus!
