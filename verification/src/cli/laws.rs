//! What the commands choose: the card, the backend and the budgets of a
//! machine, the runtime and the model a run is made with, the model a plan is
//! for.

use vstd::prelude::*;
use crate::bench::{rate_at, RamResult};
use crate::chars::{dec, lower, starts_with};
use crate::cli::machine::{
    backend_for, bandwidth_for, best_card, counts_to_measure, disk_rate, first_card, inference_threads, profile_text, with_count, Machine,
};
use crate::cli::plan_cmd::{
    beyond_training, exact_match, prefix_matches, refused, requirement_of, resolved, verdict_text, wanted_quants, UBATCH,
};
use crate::cli::verify::{chosen_model, chosen_runtime, model_named, named, smallest, usable, Seen};
use crate::double::laws::small_counts_are_exact;
use crate::double::{lemma_dec_is_plain, Double};
use crate::kv::KvPrecision;
use crate::predict::speed::one;
use crate::predict::{Backend, Platform};
use crate::probe::cpu::Cpu;
use crate::probe::gpu::{Gpu, Vendor};
use crate::probe::memory::Memory;
use crate::probe::storage::Storage;
use crate::runtime::InstalledView;
use crate::spec::{ModelSpec, ModelView, Quant};

verus! {

// --------------------------------------------------------------- the machine

/// A card that is worth switching backend for: one of its own, with 2 GiB at
/// least.
pub open spec fn worthy(c: Gpu) -> bool {
    !c.integrated && c.vram_bytes >= 2_147_483_648
}

/// `k` is the last of the largest worthy cards among the first `n`.
pub open spec fn leads_the_cards(g: Seq<Gpu>, n: nat, k: int) -> bool {
    &&& 0 <= k < n
    &&& worthy(g[k])
    &&& forall|i: int| 0 <= i < n && worthy(#[trigger] g[i]) ==> g[i].vram_bytes <= g[k].vram_bytes
    &&& forall|i: int| k < i < n && worthy(#[trigger] g[i]) ==> g[i].vram_bytes < g[k].vram_bytes
}

proof fn lemma_best_card(g: Seq<Gpu>, n: nat)
    requires
        n <= g.len(),
    ensures
        match best_card(g, n) {
            Some(k) => leads_the_cards(g, n, k),
            None => forall|i: int| 0 <= i < n ==> !worthy(#[trigger] g[i]),
        },
    decreases n,
{
    if n > 0 {
        lemma_best_card(g, (n - 1) as nat);
    }
}

/// Predictions run against one card, the one with the most memory: its memory
/// and its own bandwidth, and never a sum of several. Without a card worth it
/// there is no card's memory at all.
pub proof fn a_machine_runs_on_its_largest_card(m: Machine, platform: Platform)
    requires
        m.is_assembled(platform),
    ensures
        (exists|i: int| 0 <= i < m.gpus@.len() && worthy(#[trigger] m.gpus@[i])) ==> exists|k: int| #[trigger]
            leads_the_cards(m.gpus@, m.gpus@.len(), k) && m.hw.vram_bytes == m.gpus@[k].vram_bytes && m.hw.vram_bw_gbs.units()
                == m.gpus@[k].bw_gbs * one() && !m.hw.vram_bw_gbs.negative(),
        (forall|i: int| 0 <= i < m.gpus@.len() ==> !worthy(#[trigger] m.gpus@[i])) ==> m.hw.vram_bytes == 0,
        !m.hw.vram_bw_measured,
{
    let g = m.gpus@;
    lemma_best_card(g, g.len());
    if let Some(k) = best_card(g, g.len()) {
        small_counts_are_exact(g[k].bw_gbs as nat);
    }
}

/// A discrete card that is worth it decides; without one, a real GPU of
/// Apple's on unified memory; without that, the processor.
pub proof fn the_backend_is_what_is_there(m: Machine, platform: Platform)
    requires
        m.is_assembled(platform),
    ensures
        m.hw.backend == m.backend,
        m.backend == Backend::Discrete <==> exists|i: int| 0 <= i < m.gpus@.len() && worthy(#[trigger] m.gpus@[i]),
        m.backend == Backend::Metal ==> m.mem.unified && exists|i: int|
            0 <= i < m.gpus@.len() && (#[trigger] m.gpus@[i]).vendor == Vendor::Apple && m.gpus@[i].cores is Some,
        m.backend == Backend::Cpu && m.mem.unified ==> forall|i: int|
            0 <= i < m.gpus@.len() && (#[trigger] m.gpus@[i]).vendor == Vendor::Apple ==> m.gpus@[i].cores is None,
{
    let g = m.gpus@;
    lemma_best_card(g, g.len());
    if let Some(k) = best_card(g, g.len()) {
        assert(worthy(g[k]));
    }
    assert(m.backend == backend_for(g, m.mem.unified));
}

/// `k` is the first measurement with that many threads.
pub open spec fn first_at(r: RamResult, threads: nat, k: int) -> bool {
    &&& 0 <= k < r.by_threads@.len()
    &&& r.by_threads@[k].threads == threads
    &&& forall|i: int| 0 <= i < k ==> (#[trigger] r.by_threads@[i]).threads != threads
}

proof fn lemma_rate_at(r: RamResult, threads: nat, n: nat)
    requires
        n <= r.by_threads@.len(),
        forall|i: int| 0 <= i < r.by_threads@.len() - n ==> (#[trigger] r.by_threads@[i]).threads != threads,
    ensures
        (exists|k: int| #[trigger] first_at(r, threads, k) && rate_at(r, threads, n) == r.by_threads@[k].gbs) || (rate_at(
            r,
            threads,
            n,
        ) == r.peak_gbs && forall|i: int| 0 <= i < r.by_threads@.len() ==> (#[trigger] r.by_threads@[i]).threads != threads),
    decreases n,
{
    if n > 0 {
        let k = r.by_threads@.len() - n;
        if r.by_threads@[k].threads == threads {
            assert(first_at(r, threads, k));
        } else {
            lemma_rate_at(r, threads, (n - 1) as nat);
        }
    }
}

/// Where the GPU shares the memory, decode runs at the peak. Elsewhere it runs
/// at what was measured with as many threads as there are performance cores,
/// and at the peak only where that was not measured.
pub proof fn decode_runs_at_what_was_measured(m: Machine, platform: Platform)
    requires
        m.is_assembled(platform),
    ensures
        m.hw.ram_bw_peak_gbs == m.ram.peak_gbs,
        m.hw.gflops == m.compute.gflops_nt,
        m.hw.threads == m.cpu.recommended_threads,
        m.backend == Backend::Metal ==> m.hw.ram_bw_gbs == m.ram.peak_gbs,
        m.backend != Backend::Metal ==> forall|k: int, t: nat|
            (t == m.cpu.p_cores || (t == 1 && m.cpu.p_cores == 0)) && t > 0 && #[trigger] first_at(m.ram, t, k) ==> m.hw.ram_bw_gbs
                == m.ram.by_threads@[k].gbs,
        (forall|i: int| 0 <= i < m.ram.by_threads@.len() ==> (#[trigger] m.ram.by_threads@[i]).threads != m.cpu.p_cores
            && m.ram.by_threads@[i].threads != 1) ==> m.hw.ram_bw_gbs == m.ram.peak_gbs,
        m.disk matches Some(d) ==> m.hw.disk_gbs == d.rand_128k_qdn_gbs,
{
    let t = inference_threads(m.cpu.p_cores as nat);
    lemma_rate_at(m.ram, t, m.ram.by_threads@.len());
    assert(m.hw.ram_bw_gbs == bandwidth_for(m.ram, m.backend, t));
    assert(m.hw.disk_gbs == disk_rate(m.disk));
}

/// What is held back of `base` bytes: one of so many parts of it, whole bytes,
/// and a floor at least.
pub open spec fn keeps(held: int, base: int, parts: int, floor: int) -> bool {
    &&& held >= floor
    &&& parts * held > base - parts
    &&& held == floor || parts * held <= base
}

/// A fifth and 3 GiB at least on macOS, a fifth and 2.5 GiB on Windows, a sixth
/// and 1.5 GiB elsewhere.
pub open spec fn system_keeps(platform: Platform, held: int, base: int) -> bool {
    match platform {
        Platform::MacOs => keeps(held, base, 5, 3_221_225_472),
        Platform::Windows => keeps(held, base, 5, 2_684_354_560),
        Platform::Other => keeps(held, base, 6, 1_610_612_736),
    }
}

/// `base` is what may be used of what is there.
pub open spec fn is_allowed(base: int, there: u64, ceiling: Option<u64>) -> bool {
    &&& base <= there
    &&& ceiling matches Some(c) ==> base <= c
    &&& base == there || (ceiling matches Some(c) && base == c)
}

/// `budget` is what is left of `base`, nothing where more is held back.
pub open spec fn is_left(budget: u64, base: int, held: int, firmware: Option<u64>) -> bool {
    let kept: int = match firmware {
        Some(n) => n as int,
        None => 0,
    };
    if base > held + kept {
        budget == base - held - kept
    } else {
        budget == 0
    }
}

/// What can be used of a machine that is idle is what is there, under the
/// ceiling where one is set, less what the system keeps and less what the
/// firmware holds back.
pub proof fn an_idle_machine_offers_what_the_system_leaves(m: Machine, platform: Platform)
    requires
        m.is_assembled(platform),
    ensures
        m.hw.usable_bytes == m.budget_idle,
        exists|base: int, held: int| #[trigger]
            is_allowed(base, m.mem.total, m.env.memory_ceiling) && #[trigger] system_keeps(platform, held, base) && is_left(
                m.budget_idle,
                base,
                held,
                m.mem.firmware_reserved,
            ),
{
    let base: int = match m.env.memory_ceiling {
        Some(c) => if m.mem.total <= c {
            m.mem.total as int
        } else {
            c as int
        },
        None => m.mem.total as int,
    };
    let (parts, floor): (int, int) = match platform {
        Platform::MacOs => (5, 3_221_225_472),
        Platform::Windows => (5, 2_684_354_560),
        Platform::Other => (6, 1_610_612_736),
    };
    let held = if base / parts >= floor {
        base / parts
    } else {
        floor
    };
    assert(is_allowed(base, m.mem.total, m.env.memory_ceiling));
    assert(system_keeps(platform, held, base));
}

/// What can be used right now is what is free, under the ceiling where one is
/// set, less a tenth of the whole memory (1 GiB at least) and less what the
/// firmware holds back.
pub proof fn a_busy_machine_offers_what_is_free(m: Machine, platform: Platform)
    requires
        m.is_assembled(platform),
    ensures
        exists|base: int, held: int| #[trigger]
            is_allowed(base, m.mem.available, m.env.memory_ceiling) && #[trigger] keeps(
                held,
                m.mem.total as int,
                10,
                1_073_741_824,
            ) && is_left(m.budget_now, base, held, m.mem.firmware_reserved),
{
    let base: int = match m.env.memory_ceiling {
        Some(c) => if m.mem.available <= c {
            m.mem.available as int
        } else {
            c as int
        },
        None => m.mem.available as int,
    };
    let total = m.mem.total as int;
    let held = if total / 10 >= 1_073_741_824 {
        total / 10
    } else {
        1_073_741_824
    };
    assert(is_allowed(base, m.mem.available, m.env.memory_ceiling));
    assert(keeps(held, total, 10, 1_073_741_824));
}

pub open spec fn ascending(v: Seq<usize>) -> bool {
    forall|i: int, j: int| 0 <= i < j < v.len() ==> #[trigger] v[i] < #[trigger] v[j]
}

proof fn lemma_with_count(v: Seq<usize>, n: usize)
    requires
        ascending(v),
    ensures
        ascending(with_count(v, n)),
        forall|x: usize| #[trigger] with_count(v, n).contains(x) <==> x == n || v.contains(x),
    decreases v.len(),
{
    let w = with_count(v, n);
    if v.len() == 0 {
        assert(w =~= seq![n]);
        assert(w[0] == n);
    } else if v.last() < n {
        assert(w[v.len() as int] == n);
        assert forall|x: usize| v.contains(x) implies #[trigger] w.contains(x) by {
            let i = choose|i: int| 0 <= i < v.len() && v[i] == x;
            assert(w[i] == x);
        }
    } else if v.last() == n {
        assert(v[v.len() - 1] == n);
    } else {
        let r = v.drop_last();
        lemma_with_count(r, n);
        let q = with_count(r, n);
        assert forall|i: int| 0 <= i < q.len() implies #[trigger] q[i] < v.last() by {
            assert(q.contains(q[i]));
            if q[i] != n {
                let k = choose|k: int| 0 <= k < r.len() && r[k] == q[i];
                assert(v[k] < v[v.len() - 1]);
            }
        }
        assert forall|x: usize| #[trigger] w.contains(x) <==> x == n || v.contains(x) by {
            if w.contains(x) {
                let i = choose|i: int| 0 <= i < w.len() && w[i] == x;
                if i < q.len() {
                    assert(q.contains(x));
                    if x != n {
                        let k = choose|k: int| 0 <= k < r.len() && r[k] == x;
                        assert(v[k] == x);
                    }
                } else {
                    assert(v[v.len() - 1] == x);
                }
            }
            if x == n || v.contains(x) {
                if x == v.last() {
                    assert(w[q.len() as int] == x);
                } else {
                    if x != n {
                        let k = choose|k: int| 0 <= k < v.len() && v[k] == x;
                        assert(r[k] == x);
                    }
                    assert(q.contains(x));
                    let i = choose|i: int| 0 <= i < q.len() && q[i] == x;
                    assert(w[i] == x);
                }
            }
        }
    }
}

/// A machine is measured with one thread, with two, with its performance cores
/// (one at least) and with all its cores, each once, the fewest first.
pub proof fn each_thread_count_is_measured_once(p_cores: u32, physical: u32)
    ensures
        ascending(counts_to_measure(p_cores, physical)),
        forall|x: usize| #[trigger]
            counts_to_measure(p_cores, physical).contains(x) <==> x == 1 || x == 2 || (x == p_cores && x > 0) || x == physical,
{
    let a = with_count(Seq::empty(), 1);
    let b = with_count(a, 2);
    let c = with_count(b, (if p_cores >= 1 { p_cores } else { 1 }) as usize);
    assert(ascending(Seq::empty()));
    lemma_with_count(Seq::empty(), 1);
    lemma_with_count(a, 2);
    lemma_with_count(b, (if p_cores >= 1 { p_cores } else { 1 }) as usize);
    lemma_with_count(c, physical as usize);
}

proof fn lemma_first_card(g: Seq<Gpu>, from: int, k: int)
    requires
        0 <= from <= k < g.len(),
        !g[k].integrated && g[k].vram_bytes > 0,
        forall|i: int| from <= i < k ==> (#[trigger] g[i]).integrated || g[i].vram_bytes == 0,
    ensures
        first_card(g, from) == Some(k),
    decreases k - from,
{
    if from < k {
        assert(g[from].integrated || g[from].vram_bytes == 0);
        lemma_first_card(g, from + 1, k);
    }
}

/// Machines that differ in the memory of their card are told apart, and only
/// the first card of its own counts: two lists that start with the same one
/// give one profile.
pub proof fn machines_are_told_apart_by_their_card(cpu: Cpu, mem: Memory, os: Seq<char>, storage: Storage, g: Seq<Gpu>, h: Seq<Gpu>, k: int, j: int)
    requires
        0 <= k < g.len() && 0 <= j < h.len(),
        !g[k].integrated && g[k].vram_bytes > 0 && !h[j].integrated && h[j].vram_bytes > 0,
        forall|i: int| 0 <= i < k ==> (#[trigger] g[i]).integrated || g[i].vram_bytes == 0,
        forall|i: int| 0 <= i < j ==> (#[trigger] h[i]).integrated || h[i].vram_bytes == 0,
        g[k].name@ == h[j].name@,
    ensures
        g[k].vram_bytes == h[j].vram_bytes <==> profile_text(cpu, mem, os, storage, g) == profile_text(cpu, mem, os, storage, h),
        profile_text(cpu, mem, os, storage, g).len() > profile_text(cpu, mem, os, storage, Seq::empty()).len(),
{
    let base = profile_text(cpu, mem, os, storage, Seq::empty());
    lemma_first_card(g, 0, k);
    lemma_first_card(h, 0, j);
    assert(first_card(Seq::<Gpu>::empty(), 0) is None);
    let (x, y) = (g[k].vram_bytes as nat, h[j].vram_bytes as nat);
    let p = base + "|"@ + g[k].name@ + "|"@;
    let (a, b) = (p + dec(x), p + dec(y));
    assert(profile_text(cpu, mem, os, storage, g) == a && profile_text(cpu, mem, os, storage, h) == b);
    lemma_dec_is_plain(x);
    lemma_dec_is_plain(y);
    crate::chars::lemma_dec_digits(x);
    if a == b {
        assert(dec(x) =~= a.subrange(p.len() as int, a.len() as int));
        assert(dec(y) =~= b.subrange(p.len() as int, b.len() as int));
    }
}

// -------------------------------------------------------------- the real run

proof fn lemma_named(found: Seq<Seen>, name: Seq<char>, from: int)
    requires
        0 <= from <= found.len(),
        forall|j: int| 0 <= j < from ==> (#[trigger] found[j]).name@ != name,
    ensures
        match named(found, name, from) {
            Some(i) => from <= i < found.len() && found[i].name@ == name && forall|j: int|
                0 <= j < i ==> (#[trigger] found[j]).name@ != name,
            None => forall|j: int| 0 <= j < found.len() ==> (#[trigger] found[j]).name@ != name,
        },
    decreases found.len() - from,
{
    if from < found.len() && found[from].name@ != name {
        lemma_named(found, name, from + 1);
    }
}

proof fn lemma_usable(found: Seq<Seen>, from: int)
    requires
        0 <= from <= found.len(),
        forall|j: int| 0 <= j < from ==> !(#[trigger] found[j]).calibratable,
    ensures
        match usable(found, from) {
            Some(i) => from <= i < found.len() && found[i].calibratable && forall|j: int|
                0 <= j < i ==> !(#[trigger] found[j]).calibratable,
            None => forall|j: int| 0 <= j < found.len() ==> !(#[trigger] found[j]).calibratable,
        },
    decreases found.len() - from,
{
    if from < found.len() && !found[from].calibratable {
        lemma_usable(found, from + 1);
    }
}

/// A run is only ever made with a runtime that reports its own timings: the
/// first of them, or the first of the name that was asked for. Where the first
/// of that name reports none there is no run, and no other stands in for it.
pub proof fn a_run_needs_a_runtime_that_reports(found: Seq<Seen>, wanted: Option<Seq<char>>)
    ensures
        match chosen_runtime(found, wanted) {
            Ok(i) => {
                &&& 0 <= i < found.len()
                &&& found[i].calibratable
                &&& wanted matches Some(name) ==> found[i].name@ == name && forall|j: int|
                    0 <= j < i ==> (#[trigger] found[j]).name@ != name
                &&& wanted is None ==> forall|j: int| 0 <= j < i ==> !(#[trigger] found[j]).calibratable
            },
            Err(_) => match wanted {
                Some(name) => (forall|j: int| 0 <= j < found.len() ==> (#[trigger] found[j]).name@ != name) || exists|i: int|
                    0 <= i < found.len() && (#[trigger] found[i]).name@ == name && !found[i].calibratable,
                None => forall|j: int| 0 <= j < found.len() ==> !(#[trigger] found[j]).calibratable,
            },
        },
{
    match wanted {
        Some(name) => lemma_named(found, name, 0),
        None => lemma_usable(found, 0),
    }
}

proof fn lemma_model_named(m: Seq<InstalledView>, name: Seq<char>, from: int)
    requires
        0 <= from <= m.len(),
        forall|j: int| 0 <= j < from ==> !starts_with((#[trigger] m[j]).name, name),
    ensures
        match model_named(m, name, from) {
            Some(i) => from <= i < m.len() && starts_with(m[i].name, name) && forall|j: int|
                0 <= j < i ==> !starts_with((#[trigger] m[j]).name, name),
            None => forall|j: int| 0 <= j < m.len() ==> !starts_with((#[trigger] m[j]).name, name),
        },
    decreases m.len() - from,
{
    if from < m.len() && !starts_with(m[from].name, name) {
        lemma_model_named(m, name, from + 1);
    }
}

proof fn lemma_smallest(m: Seq<InstalledView>, n: nat)
    requires
        n <= m.len(),
    ensures
        match smallest(m, n) {
            Some(k) => 0 <= k < n && m[k].size_bytes > 0 && (forall|j: int|
                0 <= j < n && (#[trigger] m[j]).size_bytes > 0 ==> m[k].size_bytes <= m[j].size_bytes) && (forall|j: int|
                0 <= j < k && (#[trigger] m[j]).size_bytes > 0 ==> m[k].size_bytes < m[j].size_bytes),
            None => forall|j: int| 0 <= j < n ==> (#[trigger] m[j]).size_bytes == 0,
        },
    decreases n,
{
    if n > 0 {
        lemma_smallest(m, (n - 1) as nat);
    }
}

/// A text stands at the start of another.
pub open spec fn leads_into(p: Seq<char>, s: Seq<char>) -> bool {
    p.len() <= s.len() && forall|i: int| 0 <= i < p.len() ==> #[trigger] s[i] == p[i]
}

proof fn lemma_leads_into(p: Seq<char>, s: Seq<char>)
    ensures
        starts_with(s, p) == leads_into(p, s),
{
    if p.len() <= s.len() {
        let h = s.subrange(0, p.len() as int);
        if leads_into(p, s) {
            assert(h =~= p);
        }
        if h == p {
            assert forall|i: int| 0 <= i < p.len() implies #[trigger] s[i] == p[i] by {
                assert(h[i] == s[i]);
            }
        }
    }
}

/// A model that is asked for is the first whose name starts so. Without a name
/// it is the smallest of those whose size is known, and no model that is there
/// goes without a run.
pub proof fn the_smallest_model_is_measured(m: Seq<InstalledView>, wanted: Option<Seq<char>>)
    ensures
        match (chosen_model(m, wanted), wanted) {
            (Some(k), Some(name)) => 0 <= k < m.len() && leads_into(name, m[k].name) && forall|j: int|
                0 <= j < k ==> !leads_into(name, (#[trigger] m[j]).name),
            (None, Some(name)) => forall|j: int| 0 <= j < m.len() ==> !leads_into(name, (#[trigger] m[j]).name),
            (Some(k), None) => {
                &&& 0 <= k < m.len()
                &&& forall|j: int| 0 <= j < m.len() && (#[trigger] m[j]).size_bytes > 0 ==> 0 < m[k].size_bytes <= m[j].size_bytes
                &&& forall|j: int| 0 <= j < k && (#[trigger] m[j]).size_bytes > 0 ==> m[k].size_bytes < m[j].size_bytes
                &&& m[k].size_bytes == 0 ==> k == 0
            },
            (None, None) => m.len() == 0,
        },
{
    assert forall|p: Seq<char>, s: Seq<char>| #[trigger] leads_into(p, s) == starts_with(s, p) by {
        lemma_leads_into(p, s);
    }
    match wanted {
        Some(name) => lemma_model_named(m, name, 0),
        None => lemma_smallest(m, m.len()),
    }
}

// ------------------------------------------------------------------ the plan

/// `k` is the only one of the models whose name starts so, whatever the case.
pub open spec fn is_only_start(specs: Seq<ModelSpec>, want: Seq<char>, k: int) -> bool {
    &&& 0 <= k < specs.len()
    &&& leads_into(lower(want), lower(specs[k].id@))
    &&& forall|j: int| 0 <= j < specs.len() && j != k ==> !leads_into(lower(want), lower((#[trigger] specs[j]).id@))
}

proof fn lemma_exact(specs: Seq<ModelSpec>, want: Seq<char>, from: int)
    requires
        0 <= from <= specs.len(),
        forall|j: int| 0 <= j < from ==> lower((#[trigger] specs[j]).id@) != lower(want),
    ensures
        match exact_match(specs, want, from) {
            Some(i) => from <= i < specs.len() && lower(specs[i].id@) == lower(want),
            None => forall|j: int| 0 <= j < specs.len() ==> lower((#[trigger] specs[j]).id@) != lower(want),
        },
    decreases specs.len() - from,
{
    if from < specs.len() && lower(specs[from].id@) != lower(want) {
        lemma_exact(specs, want, from + 1);
    }
}

proof fn lemma_prefixes(specs: Seq<ModelSpec>, want: Seq<char>, n: nat)
    requires
        n <= specs.len(),
    ensures
        forall|a: int| 0 <= a < prefix_matches(specs, want, n).len() ==> 0 <= #[trigger] prefix_matches(specs, want, n)[a] < n
            && leads_into(lower(want), lower(specs[prefix_matches(specs, want, n)[a]].id@)),
        forall|a: int, b: int|
            0 <= a < b < prefix_matches(specs, want, n).len() ==> #[trigger] prefix_matches(specs, want, n)[a]
                < #[trigger] prefix_matches(specs, want, n)[b],
        forall|j: int| 0 <= j < n && leads_into(lower(want), lower((#[trigger] specs[j]).id@)) ==> prefix_matches(specs, want, n).contains(j),
    decreases n,
{
    if n > 0 {
        let rest = prefix_matches(specs, want, (n - 1) as nat);
        let all = prefix_matches(specs, want, n);
        lemma_prefixes(specs, want, (n - 1) as nat);
        lemma_leads_into(lower(want), lower(specs[n - 1].id@));
        assert forall|j: int| 0 <= j < n && leads_into(lower(want), lower((#[trigger] specs[j]).id@)) implies all.contains(j) by {
            if j < n - 1 {
                let a = choose|a: int| 0 <= a < rest.len() && rest[a] == j;
                assert(all[a] == j);
            } else {
                assert(all[rest.len() as int] == j);
            }
        }
    }
}

/// A plan is for the model of that name, whatever the case, or for the only one
/// whose name starts so. A name that several start with, and none has, is
/// refused, and so is one that none starts with.
pub proof fn a_plan_is_for_the_model_that_is_meant(specs: Seq<ModelSpec>, want: Seq<char>)
    ensures
        match resolved(specs, want) {
            Ok(k) => 0 <= k < specs.len() && (lower(specs[k].id@) == lower(want) || (is_only_start(specs, want, k) && forall|j: int|
                0 <= j < specs.len() ==> lower((#[trigger] specs[j]).id@) != lower(want))),
            Err(_) => {
                &&& forall|j: int| 0 <= j < specs.len() ==> lower((#[trigger] specs[j]).id@) != lower(want)
                &&& forall|k: int| !#[trigger] is_only_start(specs, want, k)
            },
        },
{
    let n = specs.len();
    let hits = prefix_matches(specs, want, n);
    lemma_exact(specs, want, 0);
    lemma_prefixes(specs, want, n);
    if exact_match(specs, want, 0) is None {
        if hits.len() == 1 {
            assert forall|j: int| 0 <= j < n && j != hits[0] implies !leads_into(lower(want), lower((#[trigger] specs[j]).id@)) by {
                if leads_into(lower(want), lower(specs[j].id@)) {
                    assert(hits.contains(j));
                }
            }
            assert(is_only_start(specs, want, hits[0]));
        } else {
            assert forall|k: int| !#[trigger] is_only_start(specs, want, k) by {
                if is_only_start(specs, want, k) {
                    assert(leads_into(lower(want), lower(specs[k].id@)));
                    assert(hits.contains(k));
                    if hits.len() > 1 {
                        assert(hits[0] < hits[1]);
                        let o = if hits[0] == k { hits[1] } else { hits[0] };
                        assert(leads_into(lower(want), lower(specs[o].id@)));
                    }
                }
            }
        }
    }
}

proof fn lemma_wanted(q: Seq<Quant>, name: Option<Seq<char>>, n: nat)
    requires
        n <= q.len(),
    ensures
        forall|a: int| 0 <= a < wanted_quants(q, name, n).len() ==> 0 <= #[trigger] wanted_quants(q, name, n)[a] < n && (name matches Some(f)
            ==> lower(q[wanted_quants(q, name, n)[a]].name@) == lower(f)),
        forall|a: int, b: int|
            0 <= a < b < wanted_quants(q, name, n).len() ==> #[trigger] wanted_quants(q, name, n)[a] < #[trigger] wanted_quants(q, name, n)[b],
        forall|j: int|
            0 <= j < n && (name matches Some(f) ==> lower((#[trigger] q[j]).name@) == lower(f)) ==> wanted_quants(q, name, n).contains(j),
    decreases n,
{
    if n > 0 {
        let rest = wanted_quants(q, name, (n - 1) as nat);
        let all = wanted_quants(q, name, n);
        lemma_wanted(q, name, (n - 1) as nat);
        assert forall|j: int| 0 <= j < n && (name matches Some(f) ==> lower((#[trigger] q[j]).name@) == lower(f)) implies all.contains(j) by {
            if j < n - 1 {
                assert(rest.contains(j));
                let a = choose|a: int| 0 <= a < rest.len() && rest[a] == j;
                assert(all[a] == j);
            } else {
                assert(all[rest.len() as int] == j);
            }
        }
    }
}

/// A plan has a row for each quantisation, once and in their order; where one
/// is asked for by name, whatever the case, for those of that name alone.
pub proof fn every_wanted_quantisation_is_planned(q: Seq<Quant>, name: Option<Seq<char>>)
    ensures
        ({
            let at = wanted_quants(q, name, q.len());
            &&& forall|a: int| 0 <= a < at.len() ==> 0 <= #[trigger] at[a] < q.len() && (name matches Some(f) ==> lower(q[at[a]].name@)
                == lower(f))
            &&& forall|a: int, b: int| 0 <= a < b < at.len() ==> #[trigger] at[a] < #[trigger] at[b]
            &&& forall|j: int| 0 <= j < q.len() && (name matches Some(f) ==> lower((#[trigger] q[j]).name@) == lower(f)) ==> at.contains(j)
        }),
{
    lemma_wanted(q, name, q.len());
}

/// A context is planned for up to the one that the model was trained for, and
/// not past it: that is refused with a code of its own.
pub proof fn nothing_is_planned_past_the_training(specs: Seq<ModelSpec>, model: Seq<char>, ctx: nat, quant: Option<Seq<char>>, k: int)
    requires
        resolved(specs, model) == Ok::<int, Seq<char>>(k),
    ensures
        (refused(specs, model, ctx, quant) matches Some(why) && why.1 == 2) <==> (specs[k].n_ctx_train matches Some(t) && ctx > t),
        beyond_training(specs[k].id@, specs[k].n_ctx_train, ctx) is Some <==> (specs[k].n_ctx_train matches Some(t) && ctx > t),
{
}

/// What a quantisation needs is its weights, the cache of the whole context
/// and the buffers, all three. It fits where that is no more than the budget,
/// to the byte, and is told to be over by what is missing.
pub proof fn what_fits_is_all_three_parts(m: ModelView, bytes: nat, ctx: nat, kv: KvPrecision, budget: nat, low: Double, high: Double)
    requires
        bytes + m.kv_bytes(ctx, kv) + m.buffer_bytes(UBATCH as nat) <= u64::MAX,
    ensures
        ({
            let (weights, cache, total) = requirement_of(m, bytes, ctx, kv);
            &&& weights == bytes
            &&& cache == m.kv_bytes(ctx, kv)
            &&& total == weights + cache + m.buffer_bytes(UBATCH as nat)
            &&& verdict_text(total, budget, low, high).len() > 0
            &&& verdict_text(total, budget, low, high)[0] == 'f' <==> total <= budget
        }),
{
    reveal_strlit("fits, ");
    reveal_strlit("over by ");
}

} // verus!
