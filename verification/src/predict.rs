//! Turning measured hardware into predicted performance.
//!
//! What fits where is decided first; how fast it is read
//! follows from the plan and from what was measured.

pub mod inversion;
pub mod laws;
pub mod speed;

use vstd::prelude::*;
use crate::double::laws::{
    a_factor_of_one_or_less_never_grows, a_factor_of_one_or_more_never_shrinks, adding_never_shrinks, counts_are_finite, counts_keep_order,
    lemma_one, one_more_is_finite, small_counts_are_exact, small_counts_are_taken_exactly, taking_never_grows, units_follow_magnitudes,
};
use crate::double::{Double, BILLION_BITS, ONE_BITS, TWO_BITS};
use crate::fit::{under, Coefficient, Confidence, Fit};
use crate::json::at_most;
use crate::kv::{kv_bytes_grow_with_context, least, max_context_is_unique, KvPrecision, CONTEXT_LIMIT};
use crate::spec::{ModelSpec, ModelView, Quant, QuantFamily, QuantView};

verus! {

/// Which compute backend the runtime will actually use. This changes which
/// bandwidth figure is correct.
#[derive(Debug, Clone, Copy, PartialEq, Eq, Structural)]
pub enum Backend {
    /// CPU only.
    Cpu,
    /// Apple Metal on unified memory.
    Metal,
    /// Discrete GPU. Weights in VRAM run at VRAM bandwidth; the rest spills to
    /// host RAM.
    Discrete,
}

impl Backend {
    pub open spec fn name_text(self) -> Seq<char> {
        match self {
            Backend::Cpu => "Cpu"@,
            Backend::Metal => "Metal"@,
            Backend::Discrete => "Discrete"@,
        }
    }

    /// The name calibration records carry.
    pub fn name(self) -> (r: &'static str)
        ensures
            r@ == self.name_text(),
    {
        match self {
            Backend::Cpu => "Cpu",
            Backend::Metal => "Metal",
            Backend::Discrete => "Discrete",
        }
    }
}

/// Measured machine characteristics.
#[derive(Debug, Clone, Copy)]
pub struct Hardware {
    pub backend: Backend,
    /// Read bandwidth achievable by the cores inference will actually use.
    pub ram_bw_gbs: Double,
    /// All-core peak, for reporting only.
    pub ram_bw_peak_gbs: Double,
    /// Random 128 KiB read at queue depth, uncached.
    pub disk_gbs: Double,
    /// Peak FMA throughput, all inference threads.
    pub gflops: Double,
    /// Bytes that may actually be allocated.
    pub usable_bytes: u64,
    pub threads: u32,
    /// Dedicated VRAM of the single card to run on, in bytes. 0 when there is
    /// no discrete GPU.
    pub vram_bytes: u64,
    /// VRAM read bandwidth, GB/s.
    pub vram_bw_gbs: Double,
    /// Whether `vram_bw_gbs` was measured on this machine or looked up. A
    /// looked-up number must not earn the confidence of a measured one.
    pub vram_bw_measured: bool,
}

#[derive(Debug, Clone, Copy, PartialEq, Eq, Structural)]
pub enum Verdict {
    /// Comfortable for interactive chat.
    Good,
    /// Works, but you will notice the wait.
    Usable,
    /// Batch work only.
    Slow,
    /// Cannot run: no context left after the weights.
    WontFit,
}

#[derive(Debug, Clone, Copy)]
pub struct Prediction {
    /// Fraction of active weights that fit in memory. 1 means no streaming.
    pub resident_fraction: Double,
    /// Predicted decode speed as a (low, high) range, tokens per second.
    pub decode_tok_s: (Double, Double),
    /// Prompt processing speed. `None` when no run has been measured on this
    /// backend: unknown beats confidently wrong.
    pub prefill_tok_s: Option<Double>,
    /// Time to first token, seconds. `None` for the same reason.
    pub ttft_s: Option<Double>,
    /// Evidence behind the prefill figure.
    pub prefill_confidence: Confidence,
    pub max_context: u32,
    pub kv_bytes_per_token: u64,
    pub verdict: Verdict,
    /// Seconds per token if the machine achieved all of its measured
    /// bandwidth.
    pub raw_seconds_per_token: Double,
    /// The efficiency that was assumed.
    pub assumed_eta: Double,
    /// How much evidence stands behind `assumed_eta`.
    pub confidence: Confidence,
}

// ------------------------------------------------------------------- budgets

pub const GIB: u64 = 1_073_741_824;

/// Operating systems that hold back different amounts of memory.
#[derive(Debug, Clone, Copy, PartialEq, Eq, Structural)]
pub enum Platform {
    MacOs,
    Windows,
    Other,
}

/// `a - b`, or nothing.
pub open spec fn minus(a: nat, b: nat) -> nat {
    if a >= b {
        (a - b) as nat
    } else {
        0
    }
}

pub open spec fn most(a: nat, b: nat) -> nat {
    if a >= b {
        a
    } else {
        b
    }
}

/// What is left of `total` under a ceiling, if there is one.
pub open spec fn under_ceiling(total: nat, ceiling: Option<u64>) -> nat {
    match ceiling {
        Some(c) => least(total, c as nat),
        None => total,
    }
}

/// The memory an otherwise idle operating system keeps for itself.
pub open spec fn os_floor(base: nat, platform: Platform) -> nat {
    match platform {
        Platform::MacOs => most(base / 5, 3 * GIB as nat),
        Platform::Windows => most(base / 5, 5 * (GIB as nat / 2)),
        Platform::Other => most(base / 6, 3 * (GIB as nat / 2)),
    }
}

fn limited(total: u64, ceiling: Option<u64>) -> (r: u64)
    ensures
        r as nat == under_ceiling(total as nat, ceiling),
{
    match ceiling {
        Some(c) => if total <= c {
            total
        } else {
            c
        },
        None => total,
    }
}

/// Memory available right now, given whatever else is running.
///
/// Starts from what is available and holds back a reserve of a tenth of the
/// RAM, at least 1 GiB, so the machine stays usable.
pub fn current_budget(total: u64, available: u64, ceiling: Option<u64>, reserved: u64) -> (r: u64)
    ensures
        r as nat == minus(
            minus(under_ceiling(available as nat, ceiling), most(total as nat / 10, GIB as nat)),
            reserved as nat,
        ),
{
    let base: u64 = limited(available, ceiling);
    let tenth: u64 = total / 10;
    let reserve: u64 = if tenth >= GIB { tenth } else { GIB };
    base.saturating_sub(reserve).saturating_sub(reserved)
}

/// Memory available on a machine that is otherwise idle: the basis for "what
/// can this machine run?".
///
/// The floor covers the OS plus a shell and a terminal, generously: predicting
/// a model fits and having it run out of memory is far worse than the reverse.
pub fn potential_budget(total: u64, ceiling: Option<u64>, reserved: u64, platform: Platform) -> (r: u64)
    ensures
        r as nat == minus(
            minus(
                under_ceiling(total as nat, ceiling),
                os_floor(under_ceiling(total as nat, ceiling), platform),
            ),
            reserved as nat,
        ),
{
    let base: u64 = limited(total, ceiling);
    let (share, floor): (u64, u64) = match platform {
        Platform::MacOs => (base / 5, 3 * GIB),
        Platform::Windows => (base / 5, 5 * (GIB / 2)),
        Platform::Other => (base / 6, 3 * (GIB / 2)),
    };
    let os: u64 = if share >= floor { share } else { floor };
    base.saturating_sub(os).saturating_sub(reserved)
}

// ------------------------------------------------------------- memory plans

/// A conversation shorter than this is no use.
pub const MIN_USABLE_CTX: u32 = 2048;

/// What a tier of memory holds of the weights: pinned core and cached rest.
#[derive(Debug, Clone, Copy, PartialEq, Eq, Structural)]
pub struct Tier {
    pub pinned: Double,
    pub cached: Double,
}

/// What lies where when a model runs.
#[derive(Debug, Clone, Copy, PartialEq, Eq, Structural)]
pub struct MemoryPlan {
    pub compute_buffer: u64,
    /// Weights that stay in memory, of any kind.
    pub weights_cached: u64,
    /// Memory left for the KV cache.
    pub for_kv: u64,
    pub max_context: u32,
    /// The context the speed is estimated at.
    pub reserve_ctx: u32,
    pub kv_bytes_per_token: u64,
    /// Weights that lie in VRAM.
    pub vram_for_weights: u64,
    /// Weights read on every token whatever the routing.
    pub hot: Double,
    /// All other weights.
    pub cold_total: Double,
    /// Weights read per token.
    pub active: Double,
    /// Weights read per token that are not hot.
    pub active_cold: Double,
    /// What VRAM and host memory hold, fastest first.
    pub vram: Tier,
    pub ram: Tier,
}

impl ModelView {
    /// The largest context up to `limit` whose cache fits in `room`.
    pub open spec fn largest_context(self, limit: nat, room: nat, prec: KvPrecision) -> nat
        decreases limit,
    {
        if limit == 0 || self.kv_bytes(limit, prec) <= room {
            limit
        } else {
            self.largest_context((limit - 1) as nat, room, prec)
        }
    }
}

pub proof fn lemma_largest_context(m: ModelView, limit: nat, room: nat, prec: KvPrecision)
    ensures
        m.largest_context(limit, room, prec) <= limit,
        m.largest_context(limit, room, prec) > 0 ==> m.kv_bytes(m.largest_context(limit, room, prec), prec) <= room,
        forall|c: nat| m.largest_context(limit, room, prec) < c <= limit ==> #[trigger] m.kv_bytes(c, prec) > room,
    decreases limit,
{
    if limit > 0 && m.kv_bytes(limit, prec) > room {
        lemma_largest_context(m, (limit - 1) as nat, room, prec);
    }
}

/// KV and compute buffers are written every token and must be resident; the
/// weights are read-only and trade against context. Room for a minimum usable
/// context is set aside first, and the weights take what remains.
pub open spec fn after_buffers(m: ModelView, usable: nat, vram: nat, ubatch: nat) -> nat {
    minus(at_most(usable + vram, u64::MAX as nat), m.buffer_bytes(ubatch))
}

pub open spec fn weights_kept(m: ModelView, bytes: nat, after: nat, prec: KvPrecision) -> nat {
    least(bytes, minus(after, m.kv_bytes(MIN_USABLE_CTX as nat, prec)))
}

/// The context that fits, never more than the model was trained for.
pub open spec fn usable_context(m: ModelView, room: nat, prec: KvPrecision) -> nat {
    let fits = m.largest_context(CONTEXT_LIMIT as nat, room, prec);
    match m.n_ctx_train {
        Some(t) => least(fits, t as nat),
        None => fits,
    }
}

/// A realistic conversation length rather than the ceiling.
pub open spec fn operating_context(max: nat) -> nat {
    if max < 512 {
        512
    } else if max > 4096 {
        4096
    } else {
        max
    }
}

/// What a tier of `capacity` bytes holds, when `hot` and `cold` bytes are
/// still to be placed: the hot core first.
pub open spec fn fill(capacity: nat, gbs: Double, hot: Double, cold: Double) -> Tier {
    if tier_counts(capacity, gbs) {
        let pinned = Double::count(capacity).smaller(hot);
        Tier { pinned, cached: Double::count(capacity).difference(pinned).smaller(cold) }
    } else {
        Tier { pinned: Double { bits: 0 }, cached: Double { bits: 0 } }
    }
}

/// What of a number is not in a part of it, nothing where the part is larger.
pub open spec fn beyond(all: nat, part: nat) -> Double {
    Double::count(all).difference(Double::count(part)).larger(Double { bits: 0 })
}

impl MemoryPlan {
    pub open spec fn is_for(
        self,
        m: ModelView,
        bytes: nat,
        hw: Hardware,
        prec: KvPrecision,
        ubatch: nat,
    ) -> bool {
        let after = after_buffers(m, hw.usable_bytes as nat, hw.vram_bytes as nat, ubatch);
        let overhead = least(
            m.buffer_bytes(ubatch) + m.kv_bytes(self.reserve_ctx as nat, prec),
            hw.vram_bytes as nat,
        );
        &&& self.compute_buffer == m.buffer_bytes(ubatch)
        &&& self.weights_cached == weights_kept(m, bytes, after, prec)
        &&& self.for_kv == after - self.weights_cached
        &&& self.max_context == usable_context(m, self.for_kv as nat, prec)
        &&& self.reserve_ctx == operating_context(self.max_context as nat)
        &&& self.kv_bytes_per_token == (m.kv_bytes((self.reserve_ctx + 256) as nat, prec) - m.kv_bytes(
            self.reserve_ctx as nat,
            prec,
        )) / 256
        &&& self.vram_for_weights == least((hw.vram_bytes - overhead) as nat, self.weights_cached as nat)
        &&& self.hot == Double::count(m.hot_core(bytes))
        &&& self.cold_total == beyond(bytes, m.hot_core(bytes))
        &&& self.active == Double::count(m.active_bytes(bytes))
        &&& self.active_cold == beyond(m.active_bytes(bytes), m.hot_core(bytes))
        &&& self.vram == fill(self.vram_for_weights as nat, hw.vram_bw_gbs, self.hot, self.cold_total)
        &&& self.ram == fill(
            self.ram_capacity(),
            hw.ram_bw_gbs,
            self.hot.difference(self.vram.pinned),
            self.cold_total.difference(self.vram.cached),
        )
    }
}

fn fill_tier(capacity: u64, gbs: Double, hot: Double, cold: Double) -> (r: Tier)
    ensures
        r == fill(capacity as nat, gbs, hot, cold),
{
    let zero = Double { bits: 0 };
    if capacity == 0 || gbs.le(zero) {
        return Tier { pinned: zero, cached: zero };
    }
    let all = Double::of_count(capacity);
    let pinned = all.min(hot);
    Tier { pinned, cached: all.less(pinned).min(cold) }
}

fn what_is_beyond(all: u64, part: u64) -> (r: Double)
    ensures
        r == beyond(all as nat, part as nat),
{
    Double::of_count(all).less(Double::of_count(part)).max(Double { bits: 0 })
}

/// The model's description and the batch are small enough to be counted.
pub open spec fn plannable(m: ModelView, prec: KvPrecision, ubatch: nat) -> bool {
    &&& m.countable()
    &&& m.buffer_bytes(ubatch) + m.kv_bytes(4096, prec) <= u64::MAX
}

/// What a plan decides before any weight is placed.
struct Room {
    compute_buffer: u64,
    weights_cached: u64,
    for_kv: u64,
    max_context: u32,
    reserve_ctx: u32,
}

fn room_for(spec: &ModelSpec, bytes: u64, pool: u64, kv_prec: KvPrecision, ubatch: u32) -> (r: Room)
    requires
        plannable(spec@, kv_prec, ubatch as nat),
    ensures
        ({
            let after = minus(pool as nat, spec@.buffer_bytes(ubatch as nat));
            &&& r.compute_buffer == spec@.buffer_bytes(ubatch as nat)
            &&& r.weights_cached == weights_kept(spec@, bytes as nat, after, kv_prec)
            &&& r.for_kv == after - r.weights_cached
            &&& r.max_context == usable_context(spec@, r.for_kv as nat, kv_prec)
            &&& r.reserve_ctx == operating_context(r.max_context as nat)
        }),
{
    let compute_buffer: u64 = spec.compute_buffer_bytes(ubatch);
    let kv_floor: u64 = spec.kv_bytes(MIN_USABLE_CTX, kv_prec);
    let after: u64 = pool.saturating_sub(compute_buffer);
    let room: u64 = after.saturating_sub(kv_floor);
    let weights_cached: u64 = if bytes <= room { bytes } else { room };
    let for_kv: u64 = after - weights_cached;
    let fits: u32 = spec.max_context_in(for_kv, kv_prec);
    proof {
        lemma_largest_context(spec@, CONTEXT_LIMIT as nat, for_kv as nat, kv_prec);
        max_context_is_unique(
            spec@,
            fits as nat,
            spec@.largest_context(CONTEXT_LIMIT as nat, for_kv as nat, kv_prec),
            for_kv as nat,
            kv_prec,
        );
    }
    let max_context: u32 = match spec.n_ctx_train {
        Some(t) => if fits <= t {
            fits
        } else {
            t
        },
        None => fits,
    };
    let reserve_ctx: u32 = if max_context < 512 {
        512
    } else if max_context > 4096 {
        4096
    } else {
        max_context
    };
    Room { compute_buffer, weights_cached, for_kv, max_context, reserve_ctx }
}

/// Decide what lies where.
pub fn plan_memory(spec: &ModelSpec, quant: &Quant, hw: &Hardware, kv_prec: KvPrecision, ubatch: u32) -> (r: MemoryPlan)
    requires
        plannable(spec@, kv_prec, ubatch as nat),
    ensures
        r.is_for(spec@, quant@.bytes, *hw, kv_prec, ubatch as nat),
{
    let pool: u64 = hw.usable_bytes.saturating_add(hw.vram_bytes);
    let room = room_for(spec, quant.bytes, pool, kv_prec, ubatch);
    let core: u64 = spec.hot_core_bytes(quant);
    let read: u64 = spec.active_bytes(quant);
    let hot = Double::of_count(core);
    let cold_total = what_is_beyond(quant.bytes, core);
    let active_cold = what_is_beyond(read, core);
    proof {
        kv_bytes_grow_with_context(spec@, room.reserve_ctx as nat, 4096, kv_prec);
    }
    let wanted: u64 = room.compute_buffer + spec.kv_bytes(room.reserve_ctx, kv_prec);
    let overhead: u64 = if wanted <= hw.vram_bytes { wanted } else { hw.vram_bytes };
    let free: u64 = hw.vram_bytes - overhead;
    let vram_for_weights: u64 = if free <= room.weights_cached { free } else { room.weights_cached };
    let vram = fill_tier(vram_for_weights, hw.vram_bw_gbs, hot, cold_total);
    let ram = fill_tier(
        room.weights_cached - vram_for_weights,
        hw.ram_bw_gbs,
        hot.less(vram.pinned),
        cold_total.less(vram.cached),
    );
    MemoryPlan {
        compute_buffer: room.compute_buffer,
        weights_cached: room.weights_cached,
        for_kv: room.for_kv,
        max_context: room.max_context,
        reserve_ctx: room.reserve_ctx,
        kv_bytes_per_token: spec.kv_bytes_per_token(room.reserve_ctx, kv_prec),
        vram_for_weights,
        hot,
        cold_total,
        active: Double::of_count(read),
        active_cold,
        vram,
        ram,
    }
}

// --------------------------------------------------------------- predictions

/// A confidence that a looked-up bandwidth cannot exceed.
pub open spec fn no_better_than_low(c: Confidence) -> Confidence {
    match c {
        Confidence::High => Confidence::Low,
        Confidence::Medium => Confidence::Low,
        _ => c,
    }
}

fn trusted_coefficient(coef: Coefficient, plan: &MemoryPlan, vram_bw_measured: bool) -> (r: Coefficient)
    ensures
        r == trusted(coef, *plan, vram_bw_measured),
{
    if plan.vram_for_weights > 0 && !vram_bw_measured {
        let confidence = match coef.confidence {
            Confidence::High => Confidence::Low,
            Confidence::Medium => Confidence::Low,
            other => other,
        };
        Coefficient {
            eta: coef.eta,
            spread: coef.spread.max(confidence.min_spread()),
            confidence,
            samples: coef.samples,
            machines: coef.machines,
        }
    } else {
        coef
    }
}

/// What a model can do for its user. A model larger than memory streams and is
/// slow; only one without room for a minimal context cannot run. Ten tokens
/// per second are comfortable, three are usable.
pub open spec fn verdict_for(max_context: nat, decode: Double) -> Verdict {
    if max_context < 512 {
        Verdict::WontFit
    } else if (Double { bits: 0x4024_0000_0000_0000 }).at_most(decode) {
        Verdict::Good
    } else if (Double { bits: 0x4008_0000_0000_0000 }).at_most(decode) {
        Verdict::Usable
    } else {
        Verdict::Slow
    }
}

pub fn verdict(max_context: u32, decode: Double) -> (r: Verdict)
    ensures
        r == verdict_for(max_context as nat, decode),
{
    if max_context < 512 {
        Verdict::WontFit
    } else if (Double { bits: 0x4024_0000_0000_0000 }).le(decode) {
        Verdict::Good
    } else if (Double { bits: 0x4008_0000_0000_0000 }).le(decode) {
        Verdict::Usable
    } else {
        Verdict::Slow
    }
}

// -------------------------------------------------------------------- speeds

/// The bits of 0.70: the fraction of peak read bandwidth that a real inference
/// loop achieves, before any run has been measured.
pub const DECODE_EFFICIENCY_BITS: u64 = 0x3FE6_6666_6666_6666;

/// The bits of 0.01 GB/s, below which no disk is taken to be.
pub const SLOWEST_DISK_BITS: u64 = 0x3F84_7AE1_47AE_147B;

/// The bits of a millionth.
pub const MILLIONTH_BITS: u64 = 0x3EB0_C6F7_A0B5_ED8D;

/// The bytes per token that a tier serves: all of the hot core it holds, and
/// the share of the cold set it caches.
pub open spec fn served(p: MemoryPlan, t: Tier) -> Double {
    t.pinned.sum(
        if (Double { bits: 0 }).below(p.cold_total) {
            p.active_cold.product(t.cached.quotient(p.cold_total))
        } else {
            Double { bits: 0 }
        },
    )
}

/// Whether a tier holds anything that can be read.
pub open spec fn tier_counts(capacity: nat, gbs: Double) -> bool {
    capacity > 0 && !gbs.at_most(Double { bits: 0 })
}

/// The time to read so many bytes at a bandwidth.
pub open spec fn reading_time(bytes: Double, gbs: Double) -> Double {
    bytes.quotient(gbs.product(Double { bits: BILLION_BITS }))
}

impl MemoryPlan {
    pub open spec fn ram_capacity(self) -> nat {
        (self.weights_cached - self.vram_for_weights) as nat
    }

    /// Bytes per token served from VRAM, and from all fast memory.
    pub open spec fn from_vram(self, hw: Hardware) -> Double {
        if tier_counts(self.vram_for_weights as nat, hw.vram_bw_gbs) {
            (Double { bits: 0 }).sum(served(self, self.vram))
        } else {
            Double { bits: 0 }
        }
    }

    pub open spec fn from_fast(self, hw: Hardware) -> Double {
        if tier_counts(self.ram_capacity(), hw.ram_bw_gbs) {
            self.from_vram(hw).sum(served(self, self.ram))
        } else {
            self.from_vram(hw)
        }
    }

    pub open spec fn vram_seconds(self, hw: Hardware) -> Double {
        if tier_counts(self.vram_for_weights as nat, hw.vram_bw_gbs) {
            (Double { bits: 0 }).sum(reading_time(served(self, self.vram), hw.vram_bw_gbs))
        } else {
            Double { bits: 0 }
        }
    }

    pub open spec fn fast_seconds(self, hw: Hardware) -> Double {
        if tier_counts(self.ram_capacity(), hw.ram_bw_gbs) {
            self.vram_seconds(hw).sum(reading_time(served(self, self.ram), hw.ram_bw_gbs))
        } else {
            self.vram_seconds(hw)
        }
    }

    /// What is left to the disk.
    pub open spec fn from_disk(self, hw: Hardware) -> Double {
        self.active.difference(self.from_fast(hw)).larger(Double { bits: 0 })
    }

    /// Seconds per token at all of the measured bandwidth.
    pub open spec fn seconds(self, hw: Hardware) -> Double {
        self.fast_seconds(hw).sum(
            reading_time(self.from_disk(hw), hw.disk_gbs.larger(Double { bits: SLOWEST_DISK_BITS })),
        )
    }

    /// The share of what is read per token that is in fast memory.
    pub open spec fn resident(self, hw: Hardware) -> Double {
        if (Double { bits: 0 }).below(self.active) {
            self.from_fast(hw).quotient(self.active)
        } else {
            Double { bits: ONE_BITS }
        }
    }
}

fn served_by(p: &MemoryPlan, t: Tier) -> (r: Double)
    ensures
        r == served(*p, t),
{
    let zero = Double { bits: 0 };
    let part = if zero.lt(p.cold_total) {
        p.active_cold.times(t.cached.over(p.cold_total))
    } else {
        zero
    };
    t.pinned.plus(part)
}

fn time_to_read(bytes: Double, gbs: Double) -> (r: Double)
    ensures
        r == reading_time(bytes, gbs),
{
    bytes.over(gbs.times(Double { bits: BILLION_BITS }))
}

/// Seconds per token and the resident fraction of a plan, fastest tier first.
fn speed_of(p: &MemoryPlan, hw: &Hardware) -> (r: (Double, Double))
    requires
        p.vram_for_weights <= p.weights_cached,
    ensures
        r.0 == p.seconds(*hw),
        r.1 == p.resident(*hw),
{
    let zero = Double { bits: 0 };
    let mut seconds = zero;
    let mut fast = zero;
    if p.vram_for_weights > 0 && !hw.vram_bw_gbs.le(zero) {
        let s = served_by(p, p.vram);
        seconds = seconds.plus(time_to_read(s, hw.vram_bw_gbs));
        fast = fast.plus(s);
    }
    if p.weights_cached - p.vram_for_weights > 0 && !hw.ram_bw_gbs.le(zero) {
        let s = served_by(p, p.ram);
        seconds = seconds.plus(time_to_read(s, hw.ram_bw_gbs));
        fast = fast.plus(s);
    }
    let disk = p.active.less(fast).max(zero);
    let seconds = seconds.plus(time_to_read(disk, hw.disk_gbs.max(Double { bits: SLOWEST_DISK_BITS })));
    let resident = if zero.lt(p.active) {
        fast.over(p.active)
    } else {
        Double { bits: ONE_BITS }
    };
    (seconds, resident)
}

/// The efficiency that is assumed of a family before anything was measured.
pub open spec fn prior_of(q: QuantFamily) -> Double {
    (Double { bits: DECODE_EFFICIENCY_BITS }).product(Double { bits: q.efficiency_bits() })
}

fn prior(q: QuantFamily) -> (r: Double)
    ensures
        r == prior_of(q),
{
    (Double { bits: DECODE_EFFICIENCY_BITS }).times(q.efficiency())
}

/// The coefficient a prediction may use.
///
/// Where weights sit in VRAM whose bandwidth was looked up rather than
/// measured, the number underneath the range is no measurement, and it cannot
/// earn more than low confidence however many runs back the coefficient.
pub open spec fn trusted(c: Coefficient, p: MemoryPlan, vram_bw_measured: bool) -> Coefficient {
    if p.vram_for_weights > 0 && !vram_bw_measured {
        let confidence = no_better_than_low(c.confidence);
        Coefficient { confidence, spread: c.spread.larger(Double { bits: confidence.min_spread_bits() }), ..c }
    } else {
        c
    }
}

/// Decode speed at an efficiency.
pub open spec fn decode_speed(eta: Double, seconds: Double) -> Double {
    if (Double { bits: 0 }).below(seconds) {
        eta.quotient(seconds)
    } else {
        Double { bits: 0 }
    }
}

/// The range around a speed. A spread wider than the value is legitimate, but
/// nothing generates fewer than zero tokens per second.
pub open spec fn range_around(decode: Double, spread: Double) -> (Double, Double) {
    let one = Double { bits: ONE_BITS };
    (decode.product(one.difference(spread)).larger(Double { bits: 0 }), decode.product(one.sum(spread)))
}

/// Prompt processing at a measured scale: two operations per parameter and
/// token.
pub open spec fn prefill_speed(scale: Coefficient, gflops: Double, active_params: nat) -> Double {
    gflops.product(Double { bits: BILLION_BITS }).product(scale.eta).quotient(
        (Double { bits: TWO_BITS }).product(Double::count(active_params)),
    )
}

/// The wait for the first token.
pub open spec fn first_token(prompt_tokens: nat, prefill: Double) -> Double {
    Double::count(prompt_tokens).quotient(prefill.larger(Double { bits: MILLIONTH_BITS }))
}

impl Prediction {
    /// The prediction is that of a plan on a machine, with the evidence there
    /// is.
    pub open spec fn is_by(self, m: ModelView, family: QuantFamily, p: MemoryPlan, hw: Hardware, prompt: nat, fit: Fit) -> bool {
        let name = hw.backend.name_text();
        let c = trusted(fit.coefficient(name, family, prior_of(family)), p, hw.vram_bw_measured);
        let decode = decode_speed(c.eta, p.seconds(hw));
        &&& self.resident_fraction == p.resident(hw)
        &&& self.decode_tok_s == range_around(decode, c.spread)
        &&& match under(fit.prefill@, name) {
            Some(scale) => {
                let speed = prefill_speed(scale, hw.gflops, m.active());
                &&& self.prefill_tok_s == Some(speed)
                &&& self.ttft_s == Some(first_token(prompt, speed))
                &&& self.prefill_confidence == scale.confidence
            },
            None => self.prefill_tok_s is None && self.ttft_s is None && self.prefill_confidence == Confidence::Prior,
        }
        &&& self.max_context == p.max_context
        &&& self.kv_bytes_per_token == p.kv_bytes_per_token
        &&& self.verdict == verdict_for(p.max_context as nat, decode)
        &&& self.raw_seconds_per_token == p.seconds(hw)
        &&& self.assumed_eta == c.eta
        &&& self.confidence == c.confidence
    }

    pub open spec fn is_for(self, m: ModelView, q: QuantView, hw: Hardware, prec: KvPrecision, prompt: nat, ubatch: nat, fit: Fit) -> bool {
        exists|p: MemoryPlan| p.is_for(m, q.bytes, hw, prec, ubatch) && #[trigger] self.is_by(m, q.family, p, hw, prompt, fit)
    }
}

/// Predict using whatever calibration evidence exists.
///
/// The fit supplies both the coefficient and the width of the range: many
/// consistent runs narrow it, none leave it at the wide prior. Prefill is
/// known only where it was measured.
pub fn predict_with(spec: &ModelSpec, quant: &Quant, hw: &Hardware, kv_prec: KvPrecision, prompt_tokens: u32, ubatch: u32, fit: &Fit) -> (r: Prediction)
    requires
        plannable(spec@, kv_prec, ubatch as nat),
    ensures
        r.is_for(spec@, quant@, *hw, kv_prec, prompt_tokens as nat, ubatch as nat, *fit),
{
    let plan = plan_memory(spec, quant, hw, kv_prec, ubatch);
    let (seconds, resident) = speed_of(&plan, hw);
    let name = hw.backend.name();
    let coef = trusted_coefficient(fit.lookup(name, quant.family, prior(quant.family)), &plan, hw.vram_bw_measured);
    let zero = Double { bits: 0 };
    let one = Double { bits: ONE_BITS };
    let decode = if zero.lt(seconds) {
        coef.eta.over(seconds)
    } else {
        zero
    };
    let (prefill_tok_s, ttft_s, prefill_confidence) = match fit.prefill_scale(name) {
        Some(scale) => {
            let flops = (Double { bits: TWO_BITS }).times(Double::of_count(spec.active_params()));
            let speed = hw.gflops.times(Double { bits: BILLION_BITS }).times(scale.eta).over(flops);
            let wait = Double::of_count(prompt_tokens as u64).over(speed.max(Double { bits: MILLIONTH_BITS }));
            (Some(speed), Some(wait), scale.confidence)
        },
        None => (None, None, Confidence::Prior),
    };
    let r = Prediction {
        resident_fraction: resident,
        decode_tok_s: (decode.times(one.less(coef.spread)).max(zero), decode.times(one.plus(coef.spread))),
        prefill_tok_s,
        ttft_s,
        prefill_confidence,
        max_context: plan.max_context,
        kv_bytes_per_token: plan.kv_bytes_per_token,
        verdict: verdict(plan.max_context, decode),
        raw_seconds_per_token: seconds,
        assumed_eta: coef.eta,
        confidence: coef.confidence,
    };
    assert(r.is_by(spec@, quant@.family, plan, *hw, prompt_tokens as nat, *fit));
    r
}

/// Predict using shipped priors only.
pub fn predict(spec: &ModelSpec, quant: &Quant, hw: &Hardware, kv_prec: KvPrecision, prompt_tokens: u32, ubatch: u32) -> (r: Prediction)
    requires
        plannable(spec@, kv_prec, ubatch as nat),
    ensures
        exists|fit: Fit|
            fit.buckets@.len() == 0 && fit.parents@.len() == 0 && fit.prefill@.len() == 0 && #[trigger] r.is_for(
                spec@,
                quant@,
                *hw,
                kv_prec,
                prompt_tokens as nat,
                ubatch as nat,
                fit,
            ),
{
    predict_with(spec, quant, hw, kv_prec, prompt_tokens, ubatch, &Fit::empty())
}

/// Whether a model can be planned for: its counts fit the machine's integers.
pub fn can_plan(spec: &ModelSpec, kv_prec: KvPrecision, ubatch: u32) -> (r: bool)
    ensures
        r == plannable(spec@, kv_prec, ubatch as nat),
{
    if !spec.counts_fit() || !spec.latent_fits() || !spec.buffer_fits(ubatch) {
        return false;
    }
    let buffer: u64 = spec.compute_buffer_bytes(ubatch);
    let kv: u64 = spec.kv_bytes(4096, kv_prec);
    buffer as u128 + kv as u128 <= u64::MAX as u128
}

// ------------------------------------------------------------------ planning

/// What running a model takes.
#[derive(Debug, Clone, Copy, PartialEq, Eq, Structural)]
pub struct Requirement {
    pub weights: u64,
    pub kv: u64,
    pub compute: u64,
    pub total: u64,
}

/// Memory needed for `spec` at `quant` and `ctx` tokens.
///
/// Every term comes from the same functions a prediction uses, so a plan and a
/// prediction cannot disagree about how much memory a model wants.
pub fn requirement(spec: &ModelSpec, quant: &Quant, ctx: u32, kv_prec: KvPrecision, ubatch: u32) -> (r: Requirement)
    requires
        spec@.kv_countable(),
        spec@.buffer_bytes(ubatch as nat) <= u64::MAX,
    ensures
        r.weights == quant@.bytes,
        r.kv == spec@.kv_bytes(ctx as nat, kv_prec),
        r.compute == spec@.buffer_bytes(ubatch as nat),
        r.total == at_most((r.weights + r.kv + r.compute) as nat, u64::MAX as nat),
{
    let weights: u64 = quant.bytes;
    let kv: u64 = spec.kv_bytes(ctx, kv_prec);
    let compute: u64 = spec.compute_buffer_bytes(ubatch);
    Requirement { weights, kv, compute, total: weights.saturating_add(kv).saturating_add(compute) }
}

/// Memory bandwidth needed to decode at a speed, in GB/s: decode is bound by
/// memory, so every token reads the active weights once. Nothing where the
/// target or the efficiency is not above zero.
pub open spec fn needed_bandwidth(active_bytes: nat, target_tps: Double, eta: Double) -> Double {
    let zero = Double { bits: 0 };
    if target_tps.at_most(zero) || eta.at_most(zero) {
        zero
    } else {
        Double::count(active_bytes).product(target_tps).quotient(eta).quotient(Double { bits: BILLION_BITS })
    }
}

pub fn required_bandwidth_gbs(spec: &ModelSpec, quant: &Quant, target_tps: Double, eta: Double) -> (r: Double)
    requires
        spec@.active() <= u64::MAX,
    ensures
        r == needed_bandwidth(spec@.active_bytes(quant@.bytes), target_tps, eta),
{
    let zero = Double { bits: 0 };
    if target_tps.le(zero) || eta.le(zero) {
        return zero;
    }
    Double::of_count(spec.active_bytes(quant)).times(target_tps).over(eta).over(Double { bits: BILLION_BITS })
}

/// The efficiency a plan should assume for this backend and quantisation: the
/// lookup a prediction makes.
pub fn plan_eta(fit: &Fit, backend: Backend, quant: &Quant) -> (r: Coefficient)
    ensures
        r == fit.coefficient(backend.name_text(), quant.family, prior_of(quant.family)),
{
    fit.lookup(backend.name(), quant.family, prior(quant.family))
}

// ---------------------------------------------------------------------- laws

/// Neither budget is more than the machine has, and what is running now never
/// adds to it.
pub proof fn budgets_stay_within_the_machine(total: u64, available: u64, ceiling: Option<u64>, reserved: u64, p: Platform)
    ensures
        minus(
            minus(under_ceiling(available as nat, ceiling), most(total as nat / 10, GIB as nat)),
            reserved as nat,
        ) <= available,
        minus(
            minus(under_ceiling(total as nat, ceiling), os_floor(under_ceiling(total as nat, ceiling), p)),
            reserved as nat,
        ) <= total,
        ceiling matches Some(c) ==> minus(
            minus(under_ceiling(total as nat, ceiling), os_floor(under_ceiling(total as nat, ceiling), p)),
            reserved as nat,
        ) <= c,
{
}

/// What a plan keeps in memory, together with the cache of the context it
/// promises and the buffers, is no more than there is. The buffers fit, and
/// where no context is promised so does what is kept of none.
pub proof fn a_plan_fits_its_machine(p: MemoryPlan, m: ModelView, bytes: nat, hw: Hardware, prec: KvPrecision, ubatch: nat)
    requires
        p.is_for(m, bytes, hw, prec, ubatch),
        p.max_context > 0 || m.kv_bytes(0, prec) <= p.for_kv,
        m.n_layers <= u32::MAX,
        m.buffer_bytes(ubatch) <= hw.usable_bytes + hw.vram_bytes,
    ensures
        p.weights_cached + m.kv_bytes(p.max_context as nat, prec) + p.compute_buffer <= hw.usable_bytes + hw.vram_bytes,
{
    lemma_largest_context(m, CONTEXT_LIMIT as nat, p.for_kv as nat, prec);
    let fits = m.largest_context(CONTEXT_LIMIT as nat, p.for_kv as nat, prec);
    kv_bytes_grow_with_context(m, p.max_context as nat, fits, prec);
}

/// Weights never keep a conversation from starting: where room for a minimum
/// usable context exists beside the buffers at all, the context that is
/// promised reaches it or what the model was trained for.
pub proof fn weights_never_crowd_out_the_context(p: MemoryPlan, m: ModelView, bytes: nat, hw: Hardware, prec: KvPrecision, ubatch: nat)
    requires
        p.is_for(m, bytes, hw, prec, ubatch),
        m.kv_bytes(MIN_USABLE_CTX as nat, prec) <= after_buffers(
            m,
            hw.usable_bytes as nat,
            hw.vram_bytes as nat,
            ubatch,
        ),
    ensures
        p.max_context >= MIN_USABLE_CTX || m.n_ctx_train == Some(p.max_context),
{
    lemma_largest_context(m, CONTEXT_LIMIT as nat, p.for_kv as nat, prec);
}

/// The hot core is placed before anything else: where a tier caches other
/// weights, all of the core that was left is in it. No tier is filled with more
/// than it holds.
pub proof fn the_hot_core_is_pinned_first(p: MemoryPlan, m: ModelView, bytes: nat, hw: Hardware, prec: KvPrecision, ubatch: nat)
    requires
        p.is_for(m, bytes, hw, prec, ubatch),
    ensures
        (Double { bits: 0 }).below(p.vram.cached) ==> p.vram.pinned == p.hot,
        (Double { bits: 0 }).below(p.ram.cached) ==> p.ram.pinned == p.hot.difference(p.vram.pinned),
        p.vram.pinned.nan() || p.vram.pinned.at_most(Double::count(p.vram_for_weights as nat)),
        p.weights_cached <= bytes,
{
    lemma_filled_first(p.vram_for_weights as nat, hw.vram_bw_gbs, p.hot, p.cold_total);
    lemma_filled_first(
        p.ram_capacity(),
        hw.ram_bw_gbs,
        p.hot.difference(p.vram.pinned),
        p.cold_total.difference(p.vram.cached),
    );
}

proof fn lemma_filled_first(capacity: nat, gbs: Double, hot: Double, cold: Double)
    requires
        capacity <= u64::MAX,
    ensures
        ({
            let t = fill(capacity, gbs, hot, cold);
            &&& (Double { bits: 0 }).below(t.cached) ==> t.pinned == hot
            &&& t.pinned.nan() || t.pinned.at_most(Double::count(capacity))
        }),
{
    let c = Double::count(capacity);
    counts_are_finite(capacity);
    let o = c.opposite();
    assert(o.magnitude() == c.magnitude() && o.negative() && o.units() == c.units());
    assert(c.difference(c).zero() && !c.difference(c).negative()) by {
        reveal(Double::sum);
    }
}

/// What fits where, in whole bytes.
pub open spec fn whole_fill(capacity: nat, hot: nat, cold: nat) -> (nat, nat) {
    let pinned = least(capacity, hot);
    (pinned, least((capacity - pinned) as nat, cold))
}

/// A tier is filled to the byte, as long as nothing is beyond all measure.
pub proof fn a_tier_is_filled_exactly(capacity: nat, gbs: Double, hot: nat, cold: nat)
    requires
        tier_counts(capacity, gbs),
        capacity <= 0x20_0000_0000_0000,
        hot <= 0x20_0000_0000_0000,
        cold <= 0x20_0000_0000_0000,
    ensures
        ({
            let t = fill(capacity, gbs, Double::count(hot), Double::count(cold));
            let (pinned, cached) = whole_fill(capacity, hot, cold);
            t == (Tier { pinned: Double::count(pinned), cached: Double::count(cached) })
        }),
{
    let pinned = least(capacity, hot);
    lemma_small_smaller(capacity, hot);
    small_counts_are_taken_exactly(capacity, pinned);
    lemma_small_smaller((capacity - pinned) as nat, cold);
}

proof fn lemma_small_smaller(a: nat, b: nat)
    requires
        a <= 0x20_0000_0000_0000,
        b <= 0x20_0000_0000_0000,
    ensures
        Double::count(a).smaller(Double::count(b)) == Double::count(least(a, b)),
{
    small_counts_are_exact(a);
    small_counts_are_exact(b);
    let (x, y) = (Double::count(a), Double::count(b));
    if a <= b {
        counts_keep_order(a, b);
    } else {
        counts_keep_order(b, a);
        if x.magnitude() == y.magnitude() {
            assert(x == y);
        }
    }
}

/// Without a card nothing lies in VRAM, and the plan is host memory first,
/// then disk.
pub proof fn without_a_card_nothing_is_in_vram(p: MemoryPlan, m: ModelView, bytes: nat, hw: Hardware, prec: KvPrecision, ubatch: nat)
    requires
        p.is_for(m, bytes, hw, prec, ubatch),
        hw.vram_bytes == 0,
    ensures
        p.vram_for_weights == 0,
        p.vram == (Tier { pinned: Double { bits: 0 }, cached: Double { bits: 0 } }),
{
}

/// A model that is refused is one without room for a minimal context, however
/// fast it would be; a model larger than memory is not refused for that.
pub proof fn only_missing_context_is_a_refusal(max_context: nat, decode: Double)
    ensures
        verdict_for(max_context, decode) == Verdict::WontFit <==> max_context < 512,
{
}

/// A range holds the speed it is drawn around and never goes below zero,
/// however far the runs behind it disagreed. Only of no speed at all with a
/// spread beyond all numbers it has no upper end.
pub proof fn a_range_holds_its_speed(decode: Double, spread: Double)
    requires
        !decode.nan() && !spread.nan(),
        !decode.negative(),
        !spread.negative(),
        !(decode.zero() && spread.infinite()),
    ensures
        ({
            let (low, high) = range_around(decode, spread);
            &&& (Double { bits: 0 }).at_most(low)
            &&& low.at_most(decode)
            &&& decode.at_most(high)
        }),
{
    let one = Double { bits: ONE_BITS };
    let (more, rest) = (one.sum(spread), one.difference(spread));
    lemma_one();
    if spread.finite() {
        adding_never_shrinks(one, spread);
        one_more_is_finite(spread);
        units_follow_magnitudes(one, more);
        taking_never_grows(one, spread);
        if decode.finite() {
            a_factor_of_one_or_more_never_shrinks(decode, more);
            if rest.negative() {
                reveal(Double::product);
                assert(decode.product(rest).negative());
            } else {
                units_follow_magnitudes(rest, one);
                a_factor_of_one_or_less_never_grows(decode, rest);
            }
        } else {
            reveal(Double::product);
        }
    } else {
        assert(more == spread && rest == spread.opposite()) by {
            reveal(Double::sum);
        }
        reveal(Double::product);
    }
}

/// No range goes below zero, whatever the speed and the spread.
pub proof fn no_range_goes_below_zero(decode: Double, spread: Double)
    ensures
        (Double { bits: 0 }).at_most(range_around(decode, spread).0),
{
}

/// Bandwidth that was looked up earns low confidence at best, and the range
/// that goes with it, however many runs back the coefficient.
pub proof fn a_looked_up_bandwidth_earns_low_confidence_at_best(c: Coefficient, p: MemoryPlan)
    requires
        p.vram_for_weights > 0,
    ensures
        ({
            let t = trusted(c, p, false);
            &&& t.confidence == Confidence::Low || t.confidence == Confidence::Prior
            &&& (Double { bits: t.confidence.min_spread_bits() }).at_most(t.spread)
            &&& t.eta == c.eta
        }),
{
}

/// The wait for the first token is known exactly where prefill was measured on
/// the backend; decode runs say nothing of it.
pub proof fn prefill_is_known_only_where_measured(
    r: Prediction,
    m: ModelView,
    q: QuantView,
    hw: Hardware,
    prec: KvPrecision,
    prompt: nat,
    ubatch: nat,
    fit: Fit,
)
    requires
        r.is_for(m, q, hw, prec, prompt, ubatch, fit),
    ensures
        r.prefill_tok_s is Some <==> under(fit.prefill@, hw.backend.name_text()) is Some,
        r.ttft_s is Some <==> r.prefill_tok_s is Some,
{
}

} // verus!
