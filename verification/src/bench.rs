//! What the benchmarks measured, and the integer kernels they run.

pub mod laws;

use vstd::prelude::*;
use crate::double::{Double, BILLION_BITS, ONE_BITS};

verus! {

/// A bandwidth measured with a number of threads.
#[derive(Debug, Clone, Copy, PartialEq, Eq, Structural)]
pub struct ThreadRate {
    pub threads: usize,
    pub gbs: Double,
}

pub struct RamResult {
    /// Best bandwidth observed across all thread counts, GB/s.
    pub peak_gbs: Double,
    /// Thread count that achieved `peak_gbs`.
    pub peak_threads: usize,
    /// Everything that was measured.
    pub by_threads: Vec<ThreadRate>,
    pub working_set: usize,
}

pub struct ComputeResult {
    pub gflops_1t: Double,
    pub gflops_nt: Double,
    /// Billions of int8 operations per second, all threads.
    pub int8_gops_nt: Double,
    /// int8 throughput relative to f32.
    pub int8_ratio: Double,
    pub threads: usize,
}

pub struct DiskResult {
    pub seq_qd1_gbs: Double,
    pub rand_128k_qd1_gbs: Double,
    pub rand_128k_qdn_gbs: Double,
    pub rand_4k_qdn_iops: Double,
    pub queue_depth: usize,
    /// False means the cache could not be bypassed and the numbers are
    /// inflated.
    pub uncached: bool,
    pub file_bytes: u64,
    /// True if a scratch file had to be created.
    pub created_file: bool,
}

// -------------------------------------------------------------------- kernels

/// The sum of the numbers.
pub open spec fn total(s: Seq<u64>) -> nat
    decreases s.len(),
{
    if s.len() == 0 {
        0
    } else {
        total(s.drop_last()) + s.last() as nat
    }
}

proof fn lemma_total_8(s: Seq<u64>, i: int)
    requires
        0 <= i,
        i + 8 <= s.len(),
    ensures
        total(s.subrange(0, i + 8)) == total(s.subrange(0, i)) + s[i] + s[i + 1] + s[i + 2] + s[i + 3] + s[i + 4] + s[i + 5] + s[i
            + 6] + s[i + 7],
{
    lemma_total_1(s, i);
    lemma_total_1(s, i + 1);
    lemma_total_1(s, i + 2);
    lemma_total_1(s, i + 3);
    lemma_total_1(s, i + 4);
    lemma_total_1(s, i + 5);
    lemma_total_1(s, i + 6);
    lemma_total_1(s, i + 7);
}

proof fn lemma_total_1(s: Seq<u64>, i: int)
    requires
        0 <= i < s.len(),
    ensures
        total(s.subrange(0, i + 1)) == total(s.subrange(0, i)) + s[i],
{
    assert(s.subrange(0, i + 1).drop_last() =~= s.subrange(0, i));
}

/// `a` is the sum `t` as 64 bits hold it, up to whole turns.
spec fn same_turn(a: int, t: int) -> bool {
    exists|k: int| a == t + #[trigger] turns(k)
}

spec fn turns(k: int) -> int {
    k * 0x1_0000_0000_0000_0000
}

proof fn lemma_turn_step(a: int, t: int, x: int, b: int)
    requires
        same_turn(a, t),
        b == a + x || b == a + x - 0x1_0000_0000_0000_0000,
    ensures
        same_turn(b, t + x),
{
    let k = choose|k: int| a == t + #[trigger] turns(k);
    if b == a + x {
        assert(b == t + x + turns(k));
    } else {
        assert(turns(k - 1) == turns(k) - 0x1_0000_0000_0000_0000);
        assert(b == t + x + turns(k - 1));
    }
}

fn add_wrapping(a: u64, b: u64) -> (r: u64)
    ensures
        r == a + b || r == a + b - 0x1_0000_0000_0000_0000,
{
    a.wrapping_add(b)
}

/// Sum a slice with eight independent accumulators, which keep several loads
/// in flight at once. The sum wraps at 64 bits: overflow is meaningless here.
pub fn sum_ilp(s: &[u64]) -> (r: u64)
    ensures
        r as int == total(s@) as int % 0x1_0000_0000_0000_0000,
{
    let n: usize = s.len();
    let mut a0: u64 = 0;
    let mut a1: u64 = 0;
    let mut a2: u64 = 0;
    let mut a3: u64 = 0;
    let mut a4: u64 = 0;
    let mut a5: u64 = 0;
    let mut a6: u64 = 0;
    let mut a7: u64 = 0;
    let mut i: usize = 0;
    proof {
        assert(turns(0) == 0);
        assert(0int == total(s@.subrange(0, 0)) + turns(0));
    }
    while n - i >= 8
        invariant
            i <= n == s@.len(),
            same_turn(a0 + a1 + a2 + a3 + a4 + a5 + a6 + a7, total(s@.subrange(0, i as int)) as int),
        decreases n - i,
    {
        let ghost t = total(s@.subrange(0, i as int)) as int;
        let ghost sum = a0 + a1 + a2 + a3 + a4 + a5 + a6 + a7;
        let b0: u64 = add_wrapping(a0, s[i]);
        let b1: u64 = add_wrapping(a1, s[i + 1]);
        let b2: u64 = add_wrapping(a2, s[i + 2]);
        let b3: u64 = add_wrapping(a3, s[i + 3]);
        let b4: u64 = add_wrapping(a4, s[i + 4]);
        let b5: u64 = add_wrapping(a5, s[i + 5]);
        let b6: u64 = add_wrapping(a6, s[i + 6]);
        let b7: u64 = add_wrapping(a7, s[i + 7]);
        proof {
            let j = i as int;
            lemma_total_8(s@, j);
            let x0 = s@[j] as int;
            let x1 = s@[j + 1] as int;
            let x2 = s@[j + 2] as int;
            let x3 = s@[j + 3] as int;
            let x4 = s@[j + 4] as int;
            let x5 = s@[j + 5] as int;
            let x6 = s@[j + 6] as int;
            let x7 = s@[j + 7] as int;
            lemma_turn_step(sum, t, x0, sum - a0 + b0);
            lemma_turn_step(sum - a0 + b0, t + x0, x1, sum - a0 + b0 - a1 + b1);
            lemma_turn_step(sum - a0 + b0 - a1 + b1, t + x0 + x1, x2, sum - a0 + b0 - a1 + b1 - a2 + b2);
            let p = sum - a0 + b0 - a1 + b1 - a2 + b2;
            let u = t + x0 + x1 + x2;
            lemma_turn_step(p, u, x3, p - a3 + b3);
            lemma_turn_step(p - a3 + b3, u + x3, x4, p - a3 + b3 - a4 + b4);
            lemma_turn_step(p - a3 + b3 - a4 + b4, u + x3 + x4, x5, p - a3 + b3 - a4 + b4 - a5 + b5);
            let q = p - a3 + b3 - a4 + b4 - a5 + b5;
            let w = u + x3 + x4 + x5;
            lemma_turn_step(q, w, x6, q - a6 + b6);
            lemma_turn_step(q - a6 + b6, w + x6, x7, q - a6 + b6 - a7 + b7);
        }
        a0 = b0;
        a1 = b1;
        a2 = b2;
        a3 = b3;
        a4 = b4;
        a5 = b5;
        a6 = b6;
        a7 = b7;
        i += 8;
    }
    let c1: u64 = add_wrapping(a0, a1);
    let c2: u64 = add_wrapping(c1, a2);
    let c3: u64 = add_wrapping(c2, a3);
    let c4: u64 = add_wrapping(c3, a4);
    let c5: u64 = add_wrapping(c4, a5);
    let c6: u64 = add_wrapping(c5, a6);
    let mut r: u64 = add_wrapping(c6, a7);
    proof {
        let t = total(s@.subrange(0, i as int)) as int;
        let sum = a0 + a1 + a2 + a3 + a4 + a5 + a6 + a7;
        lemma_turn_step(sum, t, 0, c1 + a2 + a3 + a4 + a5 + a6 + a7);
        lemma_turn_step(c1 + a2 + a3 + a4 + a5 + a6 + a7, t, 0, c2 + a3 + a4 + a5 + a6 + a7);
        lemma_turn_step(c2 + a3 + a4 + a5 + a6 + a7, t, 0, c3 + a4 + a5 + a6 + a7);
        lemma_turn_step(c3 + a4 + a5 + a6 + a7, t, 0, c4 + a5 + a6 + a7);
        lemma_turn_step(c4 + a5 + a6 + a7, t, 0, c5 + a6 + a7);
        lemma_turn_step(c5 + a6 + a7, t, 0, c6 + a7);
        lemma_turn_step(c6 + a7, t, 0, r as int);
    }
    while i < n
        invariant
            i <= n == s@.len(),
            same_turn(r as int, total(s@.subrange(0, i as int)) as int),
        decreases n - i,
    {
        let x: u64 = s[i];
        let next: u64 = add_wrapping(r, x);
        proof {
            lemma_total_1(s@, i as int);
            lemma_turn_step(r as int, total(s@.subrange(0, i as int)) as int, x as int, next as int);
        }
        r = next;
        i += 1;
    }
    proof {
        assert(s@.subrange(0, n as int) =~= s@);
        let t = total(s@) as int;
        let k = choose|k: int| r as int == t + #[trigger] turns(k);
        vstd::arithmetic::div_mod::lemma_mod_multiples_vanish(k, t, 0x1_0000_0000_0000_0000);
        vstd::arithmetic::div_mod::lemma_small_mod(r as nat, 0x1_0000_0000_0000_0000);
    }
    r
}

/// The dot product of the first `n` numbers.
pub open spec fn dot(a: Seq<i8>, b: Seq<i8>, n: nat) -> int
    decreases n,
{
    if n == 0 {
        0
    } else {
        dot(a, b, (n - 1) as nat) + a[n - 1] * b[n - 1]
    }
}

/// `a` is `t`, up to whole turns of 32 bits.
pub open spec fn same_turn32(a: int, t: int) -> bool {
    exists|k: int| a == t + #[trigger] turns32(k)
}

pub open spec fn turns32(k: int) -> int {
    k * 0x1_0000_0000
}

proof fn lemma_turn32_step(a: int, t: int, x: int, b: int)
    requires
        same_turn32(a, t),
        b == a + x || b == a + x - 0x1_0000_0000 || b == a + x + 0x1_0000_0000,
    ensures
        same_turn32(b, t + x),
{
    let k = choose|k: int| a == t + #[trigger] turns32(k);
    assert(turns32(k - 1) == turns32(k) - 0x1_0000_0000);
    assert(turns32(k + 1) == turns32(k) + 0x1_0000_0000);
    if b == a + x {
        assert(b == t + x + turns32(k));
    } else if b == a + x - 0x1_0000_0000 {
        assert(b == t + x + turns32(k - 1));
    } else {
        assert(b == t + x + turns32(k + 1));
    }
}

fn add_wrapping32(a: i32, b: i32) -> (r: i32)
    ensures
        r == a + b || r == a + b - 0x1_0000_0000 || r == a + b + 0x1_0000_0000,
{
    a.wrapping_add(b)
}

fn product(x: i8, y: i8) -> (r: i32)
    ensures
        r == x * y,
{
    assert(-16384 <= x as int * y as int <= 16384) by (nonlinear_arith)
        requires
            -128 <= x <= 127,
            -128 <= y <= 127,
    ;
    x as i32 * y as i32
}

/// How many numbers the dot product takes in: whole groups of four.
pub open spec fn grouped_len(a: nat, b: nat) -> nat {
    let n = if a <= b { a } else { b };
    (n - n % 4) as nat
}

/// int8 dot product with four independent accumulators, over whole groups of
/// four. The sum wraps at 32 bits. The shape is the one that vectorises; the
/// figure it gives is a relative signal and no hardware peak.
pub fn dot_i8(a: &[i8], b: &[i8]) -> (r: i32)
    ensures
        same_turn32(r as int, dot(a@, b@, grouped_len(a@.len(), b@.len()))),
{
    let n: usize = if a.len() <= b.len() { a.len() } else { b.len() };
    let mut c0: i32 = 0;
    let mut c1: i32 = 0;
    let mut c2: i32 = 0;
    let mut c3: i32 = 0;
    let mut i: usize = 0;
    proof {
        assert(turns32(0) == 0);
        assert(0int == dot(a@, b@, 0) + turns32(0));
    }
    while n - i >= 4
        invariant
            i <= n,
            n <= a@.len(),
            n <= b@.len(),
            i % 4 == 0,
            same_turn32(c0 + c1 + c2 + c3, dot(a@, b@, i as nat)),
        decreases n - i,
    {
        let p0: i32 = product(a[i], b[i]);
        let p1: i32 = product(a[i + 1], b[i + 1]);
        let p2: i32 = product(a[i + 2], b[i + 2]);
        let p3: i32 = product(a[i + 3], b[i + 3]);
        let d0: i32 = add_wrapping32(c0, p0);
        let d1: i32 = add_wrapping32(c1, p1);
        let d2: i32 = add_wrapping32(c2, p2);
        let d3: i32 = add_wrapping32(c3, p3);
        proof {
            let t = dot(a@, b@, i as nat);
            let sum = c0 + c1 + c2 + c3;
            assert(dot(a@, b@, (i + 1) as nat) == t + p0);
            assert(dot(a@, b@, (i + 2) as nat) == t + p0 + p1);
            assert(dot(a@, b@, (i + 3) as nat) == t + p0 + p1 + p2);
            assert(dot(a@, b@, (i + 4) as nat) == t + p0 + p1 + p2 + p3);
            lemma_turn32_step(sum, t, p0 as int, sum - c0 + d0);
            lemma_turn32_step(sum - c0 + d0, t + p0, p1 as int, sum - c0 + d0 - c1 + d1);
            lemma_turn32_step(sum - c0 + d0 - c1 + d1, t + p0 + p1, p2 as int, sum - c0 + d0 - c1 + d1 - c2 + d2);
            lemma_turn32_step(
                sum - c0 + d0 - c1 + d1 - c2 + d2,
                t + p0 + p1 + p2,
                p3 as int,
                sum - c0 + d0 - c1 + d1 - c2 + d2 - c3 + d3,
            );
        }
        c0 = d0;
        c1 = d1;
        c2 = d2;
        c3 = d3;
        i += 4;
    }
    assert(i as nat == grouped_len(a@.len(), b@.len()));
    let e1: i32 = add_wrapping32(c0, c1);
    let e2: i32 = add_wrapping32(e1, c2);
    let r: i32 = add_wrapping32(e2, c3);
    proof {
        let t = dot(a@, b@, i as nat);
        lemma_turn32_step(c0 + c1 + c2 + c3, t, 0, e1 + c2 + c3);
        lemma_turn32_step(e1 + c2 + c3, t, 0, e2 + c3);
        lemma_turn32_step(e2 + c3, t, 0, r as int);
    }
    r
}

/// A small generator for the offsets of random reads.
pub struct Rng {
    pub state: u64,
}

/// The state after a step: three shifts, each mixed in.
pub open spec fn stepped(x: u64) -> u64 {
    let a = x ^ (x >> 12u64);
    let b = a ^ (a << 25u64);
    b ^ (b >> 27u64)
}

impl Rng {
    pub fn next(&mut self) -> (r: u64)
        ensures
            final(self).state == stepped(old(self).state),
            r as nat == (stepped(old(self).state) as nat * 0x2545_F491_4F6C_DD1D) % 0x1_0000_0000_0000_0000,
    {
        let x: u64 = self.state;
        let a: u64 = x ^ (x >> 12u64);
        let b: u64 = a ^ (a << 25u64);
        let c: u64 = b ^ (b >> 27u64);
        self.state = c;
        c.wrapping_mul(0x2545_F491_4F6C_DD1D)
    }
}

/// A generator that is running never stops at zero.
pub proof fn the_generator_never_sticks(x: u64)
    requires
        x != 0,
    ensures
        stepped(x) != 0,
{
    assert(({
        let a = x ^ (x >> 12u64);
        let b = a ^ (a << 25u64);
        b ^ (b >> 27u64)
    }) != 0) by (bit_vector)
        requires
            x != 0,
    ;
}

// ------------------------------------------------------------------- the peak

/// The first of the rates that no other exceeds, where one is above zero.
pub open spec fn best_rate(v: Seq<ThreadRate>, n: nat) -> ThreadRate
    decreases n,
{
    if n == 0 {
        ThreadRate { threads: 1, gbs: Double { bits: 0 } }
    } else {
        let best = best_rate(v, (n - 1) as nat);
        if best.gbs.below(v[n - 1].gbs) {
            v[n - 1]
        } else {
            best
        }
    }
}

impl RamResult {
    /// The peak is the best of the rates, with the threads that reached it.
    pub open spec fn sums_up(self, rates: Seq<ThreadRate>) -> bool {
        let best = best_rate(rates, rates.len());
        &&& self.peak_gbs == best.gbs
        &&& self.peak_threads == best.threads
        &&& self.by_threads@ == rates
    }
}

/// What the curve of rates comes to: its peak, and where it was reached.
pub fn summarise(by_threads: Vec<ThreadRate>, working_set: usize) -> (r: RamResult)
    ensures
        r.sums_up(by_threads@),
        r.working_set == working_set,
{
    let mut best = ThreadRate { threads: 1, gbs: Double { bits: 0 } };
    let mut i: usize = 0;
    while i < by_threads.len()
        invariant
            i <= by_threads@.len(),
            best == best_rate(by_threads@, i as nat),
        decreases by_threads@.len() - i,
    {
        if best.gbs.lt(by_threads[i].gbs) {
            best = by_threads[i];
        }
        i += 1;
    }
    RamResult { peak_gbs: best.gbs, peak_threads: best.threads, by_threads, working_set }
}

/// The rate measured with that many threads, or the peak.
pub open spec fn rate_at(r: RamResult, threads: nat, n: nat) -> Double
    decreases n,
{
    if n == 0 {
        r.peak_gbs
    } else if r.by_threads@[r.by_threads@.len() - n].threads == threads {
        r.by_threads@[r.by_threads@.len() - n].gbs
    } else {
        rate_at(r, threads, (n - 1) as nat)
    }
}

impl RamResult {
    /// The bandwidth the inference threads reach: the first figure for that
    /// many threads, the peak where there is none.
    pub fn at_threads(&self, threads: usize) -> (r: Double)
        ensures
            r == rate_at(*self, threads as nat, self.by_threads@.len()),
    {
        let mut i: usize = 0;
        while i < self.by_threads.len()
            invariant
                i <= self.by_threads@.len(),
                rate_at(*self, threads as nat, self.by_threads@.len()) == rate_at(
                    *self,
                    threads as nat,
                    (self.by_threads@.len() - i) as nat,
                ),
            decreases self.by_threads@.len() - i,
        {
            if self.by_threads[i].threads == threads {
                return self.by_threads[i].gbs;
            }
            i += 1;
        }
        self.peak_gbs
    }
}

// ------------------------------------------------------------------ the reads

/// A large block: what a drive transfers best at a time.
pub const BLOCK_LARGE: u64 = 131_072;

/// A small block, which shows a controller without memory of its own.
pub const BLOCK_SMALL: u64 = 4096;

/// The least a benchmark reads over: 512 MiB, so that the drive cannot serve
/// everything from its own cache.
pub const MIN_SPAN: u64 = 536_870_912;

/// Whether a file is too short to read, or not there, so that a scratch file
/// has to be written.
pub fn needs_scratch(len: Option<u64>) -> (r: bool)
    ensures
        r == !(len matches Some(n) && n >= MIN_SPAN),
{
    match len {
        Some(n) => n < MIN_SPAN,
        None => true,
    }
}

/// The offsets a benchmark reads at.
pub struct Walk {
    pub block: u64,
    pub blocks: u64,
    pub sequential: bool,
    pub cursor: u64,
    pub rng: Rng,
}

impl Walk {
    pub open spec fn wf(self) -> bool {
        &&& self.block > 0
        &&& self.blocks > 0
        &&& self.blocks * self.block <= u64::MAX
    }

    /// A walk over `span` bytes. An odd seed is never zero.
    pub fn new(span: u64, block: u64, sequential: bool, seed: u64) -> (r: Walk)
        requires
            block > 0,
        ensures
            r.wf(),
            r.block == block,
            r.blocks == (if span / block >= 1 {
                span / block
            } else {
                1
            }),
            r.sequential == sequential,
            r.cursor == 0,
            r.rng.state == seed | 1,
    {
        let whole: u64 = span / block;
        assert(whole * block <= span) by (nonlinear_arith)
            requires
                whole == span / block,
                block > 0,
        ;
        Walk { block, blocks: if whole >= 1 { whole } else { 1 }, sequential, cursor: 0, rng: Rng { state: seed | 1 } }
    }

    /// The next offset: the next block in turn, or any.
    pub fn next_offset(&mut self) -> (r: u64)
        requires
            old(self).wf(),
        ensures
            final(self).wf(),
            final(self).block == old(self).block,
            final(self).blocks == old(self).blocks,
            final(self).sequential == old(self).sequential,
            old(self).sequential ==> final(self).rng == old(self).rng && final(self).cursor as int == (old(self).cursor as int % old(self).blocks as int
                + 1) % (old(self).blocks as int) && r == final(self).cursor * old(self).block,
            !old(self).sequential ==> final(self).cursor == old(self).cursor && final(self).rng.state == stepped(
                old(self).rng.state,
            ) && r as int == drawn(old(self).rng.state) as int % (old(self).blocks as int) * old(self).block,
            r as int % (old(self).block as int) == 0,
            r + old(self).block <= old(self).blocks * old(self).block,
    {
        let index: u64 = if self.sequential {
            let at: u64 = self.cursor % self.blocks;
            self.cursor = if at + 1 == self.blocks { 0 } else { at + 1 };
            proof {
                if at + 1 == self.blocks {
                    vstd::arithmetic::div_mod::lemma_mod_self_0(self.blocks as int);
                } else {
                    vstd::arithmetic::div_mod::lemma_small_mod((at + 1) as nat, self.blocks as nat);
                }
            }
            self.cursor
        } else {
            self.rng.next() % self.blocks
        };
        proof {
            let b = self.block as int;
            let n = self.blocks as int;
            let k = index as int;
            assert(k < n);
            assert(k * b + b <= n * b && 0 <= k * b) by (nonlinear_arith)
                requires
                    0 <= k < n,
                    b > 0,
            ;
            vstd::arithmetic::div_mod::lemma_mod_multiples_basic(k, b);
        }
        index * self.block
    }
}

/// What a generator gives from a state.
pub open spec fn drawn(state: u64) -> nat {
    (stepped(state) as nat * 0x2545_F491_4F6C_DD1D) % 0x1_0000_0000_0000_0000
}

/// The seed of a worker, so that no two read the same blocks.
pub fn worker_seed(i: u64) -> (r: u64)
    ensures
        r == 0x9E37_79B9_7F4A_7C15u64 ^ (i << 17u64),
{
    0x9E37_79B9_7F4A_7C15u64 ^ (i << 17u64)
}

/// A read never passes the end of a file that holds a block.
pub proof fn reads_stay_in_the_file(span: u64, block: u64, offset: u64)
    requires
        0 < block <= span,
        offset + block <= span / block * block,
    ensures
        offset + block <= span,
{
    assert(span / block * block <= span) by (nonlinear_arith)
        requires
            block > 0,
    ;
}

/// The best of several samples: interference only ever makes one slower.
pub open spec fn best_sample(v: Seq<Double>) -> Double
    decreases v.len(),
{
    if v.len() == 0 {
        Double { bits: 0 }
    } else {
        best_sample(v.drop_last()).larger(v.last())
    }
}

pub fn best_of(v: &Vec<Double>) -> (r: Double)
    ensures
        r == best_sample(v@),
{
    let mut best = Double { bits: 0 };
    let mut i: usize = 0;
    assert(v@.subrange(0, 0) =~= Seq::<Double>::empty());
    while i < v.len()
        invariant
            i <= v@.len(),
            best == best_sample(v@.subrange(0, i as int)),
        decreases v@.len() - i,
    {
        assert(v@.subrange(0, i + 1).drop_last() =~= v@.subrange(0, i as int));
        best = best.max(v[i]);
        i += 1;
    }
    assert(v@.subrange(0, i as int) =~= v@);
    best
}

// ---------------------------------------------------------------------- rates

/// Bytes in a time, in GB/s.
pub open spec fn gbs_of(bytes: nat, seconds: Double) -> Double {
    Double::count(bytes).quotient(seconds).quotient(Double { bits: BILLION_BITS })
}

pub fn gbs(bytes: u64, seconds: Double) -> (r: Double)
    ensures
        r == gbs_of(bytes as nat, seconds),
{
    Double::of_count(bytes).over(seconds).over(Double { bits: BILLION_BITS })
}

/// Billions of operations per second; none where no time passed or no worker
/// came through.
pub open spec fn gops_of(ops: nat, seconds: Double, finished: bool) -> Double {
    if !finished || seconds.at_most(Double { bits: 0 }) {
        Double { bits: 0 }
    } else {
        gbs_of(ops, seconds)
    }
}

pub fn gops(ops: u64, seconds: Double, finished: bool) -> (r: Double)
    ensures
        r == gops_of(ops as nat, seconds, finished),
{
    if !finished || seconds.le(Double { bits: 0 }) {
        Double { bits: 0 }
    } else {
        gbs(ops, seconds)
    }
}

/// What a read loop came to.
#[derive(Debug, Clone, Copy, PartialEq, Eq, Structural)]
pub struct ReadRun {
    pub bytes: u64,
    pub ops: u64,
    pub seconds: Double,
}

impl DiskResult {
    pub open spec fn comes_of(self, sequential: ReadRun, random: ReadRun, deep: ReadRun, small: ReadRun) -> bool {
        &&& self.seq_qd1_gbs == gbs_of(sequential.bytes as nat, sequential.seconds)
        &&& self.rand_128k_qd1_gbs == gbs_of(random.bytes as nat, random.seconds)
        &&& self.rand_128k_qdn_gbs == gbs_of(deep.bytes as nat, deep.seconds)
        &&& self.rand_4k_qdn_iops == Double::count(small.ops as nat).quotient(small.seconds)
    }

    /// The rates of the four loops: in turn, anywhere, anywhere with many
    /// workers, and small blocks with many workers.
    pub fn of(
        sequential: ReadRun,
        random: ReadRun,
        deep: ReadRun,
        small: ReadRun,
        queue_depth: usize,
        uncached: bool,
        file_bytes: u64,
        created_file: bool,
    ) -> (r: DiskResult)
        ensures
            r.comes_of(sequential, random, deep, small),
            r.queue_depth == queue_depth && r.uncached == uncached,
            r.file_bytes == file_bytes && r.created_file == created_file,
    {
        DiskResult {
            seq_qd1_gbs: gbs(sequential.bytes, sequential.seconds),
            rand_128k_qd1_gbs: gbs(random.bytes, random.seconds),
            rand_128k_qdn_gbs: gbs(deep.bytes, deep.seconds),
            rand_4k_qdn_iops: Double::of_count(small.ops).over(small.seconds),
            queue_depth,
            uncached,
            file_bytes,
            created_file,
        }
    }
}

/// Integer throughput beside that of floating point; the same where the latter
/// was not measured.
pub open spec fn ratio_of(int8: Double, gflops: Double) -> Double {
    if (Double { bits: 0 }).below(gflops) {
        int8.quotient(gflops)
    } else {
        Double { bits: ONE_BITS }
    }
}

impl ComputeResult {
    pub open spec fn comes_of(self, single: Seq<Double>, all: Seq<Double>, int8: Seq<Double>) -> bool {
        &&& self.gflops_1t == best_sample(single)
        &&& self.gflops_nt == best_sample(all)
        &&& self.int8_gops_nt == best_sample(int8)
        &&& self.int8_ratio == ratio_of(best_sample(int8), best_sample(all))
    }

    /// The best of the samples of each kernel.
    pub fn of(single: &Vec<Double>, all: &Vec<Double>, int8: &Vec<Double>, threads: usize) -> (r: ComputeResult)
        ensures
            r.comes_of(single@, all@, int8@),
            r.threads == threads,
    {
        let gflops_nt = best_of(all);
        let int8_gops_nt = best_of(int8);
        let int8_ratio = if (Double { bits: 0 }).lt(gflops_nt) {
            int8_gops_nt.over(gflops_nt)
        } else {
            Double { bits: ONE_BITS }
        };
        ComputeResult { gflops_1t: best_of(single), gflops_nt, int8_gops_nt, int8_ratio, threads }
    }
}

} // verus!
