//! What the probes and benchmarks come to: the profile a machine is grouped
//! by, the card and the backend predictions run against, and its budgets.

use vstd::prelude::*;
use crate::bench::{ComputeResult, DiskResult, RamResult};
use crate::chars::{copy, dec, decimal};
use crate::double::Double;
use crate::predict::{
    current_budget, minus, most, os_floor, potential_budget, under_ceiling, Backend, Hardware, Platform, GIB,
};
use crate::probe::cpu::Cpu;
use crate::probe::env::Env;
use crate::probe::gpu::{Gpu, Vendor};
use crate::probe::memory::Memory;
use crate::probe::storage::Storage;

verus! {

// ---------------------------------------------------------------- the profile

/// The first discrete card with memory of its own.
pub open spec fn first_card(g: Seq<Gpu>, from: int) -> Option<int>
    decreases g.len() - from,
{
    if from < 0 || from >= g.len() {
        None
    } else if !g[from].integrated && g[from].vram_bytes > 0 {
        Some(from)
    } else {
        first_card(g, from + 1)
    }
}

/// What a machine is grouped by: processor, memory, system and medium, and the
/// card where there is one, because cards decide how fast it decodes.
pub open spec fn profile_text(cpu: Cpu, mem: Memory, os: Seq<char>, storage: Storage, gpus: Seq<Gpu>) -> Seq<char> {
    let base = cpu.brand@ + "|"@ + dec(cpu.p_cores as nat) + "P"@ + dec(cpu.e_cores as nat) + "E|"@ + dec(
        mem.total as nat,
    ) + "|"@ + os + "|"@ + storage.medium.name_text();
    match first_card(gpus, 0) {
        Some(i) => base + "|"@ + gpus[i].name@ + "|"@ + dec(gpus[i].vram_bytes as nat),
        None => base,
    }
}

// -------------------------------------------------------------------- threads

/// `n` put among numbers in ascending order, once.
pub open spec fn with_count(v: Seq<usize>, n: usize) -> Seq<usize>
    decreases v.len(),
{
    if v.len() == 0 {
        seq![n]
    } else if v.last() < n {
        v.push(n)
    } else if v.last() == n {
        v
    } else {
        with_count(v.drop_last(), n).push(v.last())
    }
}

fn insert_count(v: &mut Vec<usize>, n: usize)
    ensures
        final(v)@ == with_count(old(v)@, n),
    decreases old(v)@.len(),
{
    if v.len() == 0 {
        v.push(n);
        assert(v@ =~= seq![n]);
        return;
    }
    let k: usize = v.len() - 1;
    let last: usize = v[k];
    if last < n {
        v.push(n);
    } else if last > n {
        let ghost before = v@;
        let _top = v.pop();
        assert(v@ =~= before.drop_last());
        insert_count(v, n);
        v.push(last);
    }
}

/// One, two, the performance cores (one at least) and all physical cores.
pub open spec fn counts_to_measure(p_cores: u32, physical: u32) -> Seq<usize> {
    with_count(
        with_count(with_count(with_count(Seq::empty(), 1), 2), (if p_cores >= 1 { p_cores } else { 1 }) as usize),
        physical as usize,
    )
}

/// The thread counts to measure at: one, two, the performance cores and all
/// physical cores, each once, in order.
pub fn thread_counts(p_cores: u32, physical: u32) -> (r: Vec<usize>)
    ensures
        r@ == counts_to_measure(p_cores, physical),
{
    let mut v: Vec<usize> = Vec::new();
    assert(v@ =~= Seq::<usize>::empty());
    insert_count(&mut v, 1);
    insert_count(&mut v, 2);
    insert_count(&mut v, (if p_cores >= 1 { p_cores } else { 1 }) as usize);
    insert_count(&mut v, physical as usize);
    v
}

// -------------------------------------------------------- card and backend

/// A card smaller than this is not worth switching backend for: 2 GiB.
pub const MIN_DISCRETE_VRAM: u64 = 2_147_483_648;

/// The position of the card with the most memory, the last of several.
pub open spec fn best_card(g: Seq<Gpu>, n: nat) -> Option<int>
    decreases n,
{
    if n == 0 {
        None
    } else {
        let rest = best_card(g, (n - 1) as nat);
        let c = g[n - 1];
        if c.integrated || c.vram_bytes < MIN_DISCRETE_VRAM {
            rest
        } else {
            match rest {
                Some(k) => if c.vram_bytes >= g[k].vram_bytes {
                    Some(n - 1)
                } else {
                    rest
                },
                None => Some(n - 1),
            }
        }
    }
}

/// The card predictions run against: one, never a sum.
pub fn choose_card(g: &Vec<Gpu>) -> (r: Option<usize>)
    ensures
        match r {
            Some(k) => best_card(g@, g@.len()) == Some(k as int) && k < g@.len(),
            None => best_card(g@, g@.len()) is None,
        },
{
    let mut best: Option<usize> = None;
    let mut i: usize = 0;
    while i < g.len()
        invariant
            i <= g@.len(),
            match best {
                Some(k) => best_card(g@, i as nat) == Some(k as int) && k < i,
                None => best_card(g@, i as nat) is None,
            },
        decreases g@.len() - i,
    {
        if !g[i].integrated && g[i].vram_bytes >= MIN_DISCRETE_VRAM {
            best = match best {
                Some(k) => if g[i].vram_bytes >= g[k].vram_bytes {
                    Some(i)
                } else {
                    Some(k)
                },
                None => Some(i),
            };
        }
        i += 1;
    }
    best
}

/// A real GPU of Apple's was found: one that reports its cores.
pub open spec fn apple_gpu(g: Seq<Gpu>) -> bool {
    exists|i: int| 0 <= i < g.len() && (#[trigger] g[i]).vendor == Vendor::Apple && g[i].cores is Some
}

fn has_apple_gpu(g: &Vec<Gpu>) -> (r: bool)
    ensures
        r == apple_gpu(g@),
{
    let mut i: usize = 0;
    while i < g.len()
        invariant
            i <= g@.len(),
            forall|j: int| 0 <= j < i ==> !((#[trigger] g@[j]).vendor == Vendor::Apple && g@[j].cores is Some),
        decreases g@.len() - i,
    {
        if g[i].vendor == Vendor::Apple && g[i].usable_for_compute() {
            return true;
        }
        i += 1;
    }
    false
}

pub open spec fn backend_for(g: Seq<Gpu>, unified: bool) -> Backend {
    if best_card(g, g.len()) is Some {
        Backend::Discrete
    } else if unified && apple_gpu(g) {
        Backend::Metal
    } else {
        Backend::Cpu
    }
}

/// The backend: a discrete card if one is worth it, Metal on unified memory
/// with a GPU that is real, the CPU otherwise. A virtual machine's adapter has
/// no cores to report, and claims nothing.
pub fn choose_backend(g: &Vec<Gpu>, unified: bool) -> (r: Backend)
    ensures
        r == backend_for(g@, unified),
{
    if choose_card(g).is_some() {
        Backend::Discrete
    } else if unified && has_apple_gpu(g) {
        Backend::Metal
    } else {
        Backend::Cpu
    }
}

/// Inference runs on the performance cores, on one at least.
pub open spec fn inference_threads(p_cores: nat) -> nat {
    if p_cores >= 1 {
        p_cores
    } else {
        1
    }
}

pub fn inference_thread_count(p_cores: u32) -> (r: usize)
    ensures
        r as nat == inference_threads(p_cores as nat),
{
    if p_cores >= 1 {
        p_cores as usize
    } else {
        1
    }
}

pub open spec fn bandwidth_for(ram: RamResult, backend: Backend, p_threads: nat) -> Double {
    if backend == Backend::Metal {
        ram.peak_gbs
    } else {
        crate::bench::rate_at(ram, p_threads, ram.by_threads@.len())
    }
}

/// The bandwidth that governs decode: the peak where the GPU shares the
/// memory, what the inference cores reach otherwise.
pub fn choose_bandwidth(ram: &RamResult, backend: Backend, p_threads: usize) -> (r: Double)
    ensures
        r == bandwidth_for(*ram, backend, p_threads as nat),
{
    match backend {
        Backend::Metal => ram.peak_gbs,
        _ => ram.at_threads(p_threads),
    }
}

// ----------------------------------------------------------------- the machine

/// The bits of 0.5 GB/s: what is taken for a disk that could not be measured.
/// Low rather than high, because overstating it would make an unusable model
/// look viable.
pub const UNMEASURED_DISK_BITS: u64 = 0x3FE0_0000_0000_0000;

/// Everything that was probed and measured, once, for every command.
pub struct Machine {
    pub mem: Memory,
    pub cpu: Cpu,
    pub env: Env,
    pub storage: Storage,
    /// Every adapter found, integrated ones too. Only the largest discrete one
    /// feeds the prediction.
    pub gpus: Vec<Gpu>,
    pub ram: RamResult,
    pub compute: ComputeResult,
    pub disk: Option<DiskResult>,
    pub hw: Hardware,
    pub backend: Backend,
    /// Budget when nothing else is running: the basis for predictions.
    pub budget_idle: u64,
    /// Budget right now, for the report.
    pub budget_now: u64,
}

/// The disk figure predictions run against.
pub open spec fn disk_rate(disk: Option<DiskResult>) -> Double {
    match disk {
        Some(d) => d.rand_128k_qdn_gbs,
        None => Double { bits: UNMEASURED_DISK_BITS },
    }
}

/// What the firmware is known to hold back.
pub open spec fn firmware_share(m: Memory) -> nat {
    match m.firmware_reserved {
        Some(n) => n as nat,
        None => 0,
    }
}

/// The card's part of the hardware: its memory and its bandwidth, which is
/// looked up and never measured.
pub open spec fn card_figures(hw: Hardware, gpus: Seq<Gpu>) -> bool {
    match best_card(gpus, gpus.len()) {
        Some(k) => hw.vram_bytes == gpus[k].vram_bytes && hw.vram_bw_gbs == Double::count(gpus[k].bw_gbs as nat),
        None => hw.vram_bytes == 0 && hw.vram_bw_gbs.bits == 0,
    }
}

impl Machine {
    /// The figures that predictions run against come from what was probed and
    /// measured.
    pub open spec fn is_assembled(self, platform: Platform) -> bool {
        let base = under_ceiling(self.mem.total as nat, self.env.memory_ceiling);
        &&& self.backend == backend_for(self.gpus@, self.mem.unified)
        &&& self.hw.backend == self.backend
        &&& self.hw.ram_bw_gbs == bandwidth_for(self.ram, self.backend, inference_threads(self.cpu.p_cores as nat))
        &&& self.hw.ram_bw_peak_gbs == self.ram.peak_gbs
        &&& self.hw.disk_gbs == disk_rate(self.disk)
        &&& self.hw.gflops == self.compute.gflops_nt
        &&& self.hw.usable_bytes == self.budget_idle
        &&& self.hw.threads == self.cpu.recommended_threads
        &&& card_figures(self.hw, self.gpus@)
        &&& !self.hw.vram_bw_measured
        &&& self.budget_idle as nat == minus(minus(base, os_floor(base, platform)), firmware_share(self.mem))
        &&& self.budget_now as nat == minus(
            minus(
                under_ceiling(self.mem.available as nat, self.env.memory_ceiling),
                most(self.mem.total as nat / 10, GIB as nat),
            ),
            firmware_share(self.mem),
        )
    }

    /// What the probes and benchmarks come to: the card, the backend, the
    /// bandwidth that governs decode, and the two budgets.
    pub fn assemble(
        mem: Memory,
        cpu: Cpu,
        env: Env,
        storage: Storage,
        gpus: Vec<Gpu>,
        ram: RamResult,
        compute: ComputeResult,
        disk: Option<DiskResult>,
        platform: Platform,
    ) -> (m: Machine)
        ensures
            m.mem == mem && m.cpu == cpu && m.env == env && m.storage == storage,
            m.gpus == gpus && m.ram == ram && m.compute == compute && m.disk == disk,
            m.is_assembled(platform),
    {
        let reserved: u64 = match mem.firmware_reserved {
            Some(n) => n,
            None => 0,
        };
        let budget_idle: u64 = potential_budget(mem.total, env.memory_ceiling, reserved, platform);
        let budget_now: u64 = current_budget(mem.total, mem.available, env.memory_ceiling, reserved);
        let backend = choose_backend(&gpus, mem.unified);
        let threads: usize = inference_thread_count(cpu.p_cores);
        let bw = choose_bandwidth(&ram, backend, threads);
        let (vram_bytes, vram_bw_gbs) = match choose_card(&gpus) {
            Some(k) => (gpus[k].vram_bytes, Double::of_count(gpus[k].bw_gbs as u64)),
            None => (0u64, Double::from_bits(0)),
        };
        let disk_gbs = match &disk {
            Some(d) => d.rand_128k_qdn_gbs,
            None => Double::from_bits(UNMEASURED_DISK_BITS),
        };
        let hw = Hardware {
            backend,
            ram_bw_gbs: bw,
            ram_bw_peak_gbs: ram.peak_gbs,
            disk_gbs,
            gflops: compute.gflops_nt,
            usable_bytes: budget_idle,
            threads: cpu.recommended_threads,
            vram_bytes,
            vram_bw_gbs,
            vram_bw_measured: false,
        };
        Machine { mem, cpu, env, storage, gpus, ram, compute, disk, hw, backend, budget_idle, budget_now }
    }

    /// Stable, non-identifying description used to group calibration records. A
    /// machine without a card keeps the profile it had before cards were looked
    /// for.
    pub fn profile(&self) -> (o: String)
        ensures
            o@ == profile_text(self.cpu, self.mem, self.env.os@, self.storage, self.gpus@),
    {
        let mut o = copy(self.cpu.brand.as_str());
        o.append("|");
        o.append(decimal(self.cpu.p_cores as u128).as_str());
        o.append("P");
        o.append(decimal(self.cpu.e_cores as u128).as_str());
        o.append("E|");
        o.append(decimal(self.mem.total as u128).as_str());
        o.append("|");
        o.append(self.env.os.as_str());
        o.append("|");
        o.append(self.storage.medium.name());
        let ghost base = o@;
        let mut i: usize = 0;
        while i < self.gpus.len()
            invariant
                i <= self.gpus@.len(),
                o@ == base,
                base == self.cpu.brand@ + "|"@ + dec(self.cpu.p_cores as nat) + "P"@ + dec(self.cpu.e_cores as nat) + "E|"@ + dec(
                    self.mem.total as nat,
                ) + "|"@ + self.env.os@ + "|"@ + self.storage.medium.name_text(),
                first_card(self.gpus@, i as int) == first_card(self.gpus@, 0),
            decreases self.gpus@.len() - i,
        {
            if !self.gpus[i].integrated && self.gpus[i].vram_bytes > 0 {
                o.append("|");
                o.append(self.gpus[i].name.as_str());
                o.append("|");
                o.append(decimal(self.gpus[i].vram_bytes as u128).as_str());
                return o;
            }
            i += 1;
        }
        o
    }
}

} // verus!
