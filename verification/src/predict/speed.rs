//! What the speed of a plan stands for: the bytes that a token reads, each from
//! where it lies, at the bandwidth of that place.

use vstd::prelude::*;
use crate::double::error::{
    anything_is_near_itself, differences_are_near, hardly_above, lemma_above_adds, lemma_above_chain, lemma_above_scaled, lemma_above_widens, near, nearness_adds, nearness_cancels, nearness_carries_over, nearness_scales,
    nearness_widens, ordinary, pieces_of_a_half, products_are_near, quotients_are_near, sums_are_near, SLACK,
};
use crate::double::laws::{nothing_times_anything, small_counts_are_exact, small_counts_are_taken_exactly, units_follow_magnitudes};
use crate::double::{lemma_pow2_adds, lemma_pow2_grows, pow2, Double, BILLION_BITS};
use crate::kv::KvPrecision;
use crate::predict::inversion::{
    lemma_between, lemma_beyond, lemma_count_is_ordinary, lemma_positive, lemma_zero_adds_nothing, lemma_zero_rounds_to_zero,
};
use crate::predict::{a_tier_is_filled_exactly, reading_time, served, Hardware, MemoryPlan, Tier, SLOWEST_DISK_BITS};
use crate::spec::{active_bytes_are_part_of_the_file, the_hot_core_is_read_every_time, ModelView};

verus! {

/// One, in units of the smallest double.
pub open spec fn one() -> nat {
    pow2(1074)
}

/// So many bytes are read in such a time at so many gigabytes per second. All
/// are in units of the smallest double.
pub open spec fn read_in(time: nat, bytes: nat, gbs: Double) -> bool {
    if bytes == 0 {
        time == 0
    } else {
        near(time * gbs.units() * 1_000_000_000, bytes * one(), 6)
    }
}

/// A token reads so many bytes of a place that holds `pinned` bytes of the core
/// and `cached` of the rest, where it reads all of the core and `some` bytes
/// spread over the rest.
pub open spec fn read_of(bytes: nat, pinned: nat, cached: nat, some: nat, rest: nat) -> bool {
    if rest == 0 {
        bytes == pinned * one()
    } else {
        near(bytes * rest, (pinned * rest + some * cached) * one(), 6)
    }
}

/// A disk is taken to deliver what was measured, and a hundredth of a gigabyte
/// per second at least.
pub open spec fn delivers(taken: Double, measured: Double) -> bool {
    if measured.finite() && !measured.negative() && measured.units() * 100 >= one() {
        taken == measured
    } else {
        near(taken.units() * 100, one(), 1)
    }
}

/// The bytes of a token by where they are read, and the time that takes.
pub struct Reads {
    pub vram: nat,
    pub ram: nat,
    pub disk: nat,
    pub vram_time: nat,
    pub ram_time: nat,
    pub disk_time: nat,
    pub disk_gbs: Double,
}

pub open spec fn fewer(a: nat, b: nat) -> nat {
    if a <= b {
        a
    } else {
        b
    }
}

impl Reads {
    /// A token reads `read` bytes of a file of `bytes`, the core first and the
    /// rest evenly. VRAM holds `in_vram` bytes of the file, memory of both kinds
    /// `held`, the core before the rest. What memory does not hold is read from
    /// the disk, and `resident` is the share that is not.
    pub open spec fn come_to(self, seconds: Double, resident: Double, hw: Hardware, bytes: nat, read: nat, core: nat, in_vram: nat, held: nat) -> bool {
        let in_ram = (held - in_vram) as nat;
        let (some, rest) = ((read - core) as nat, (bytes - core) as nat);
        let first = fewer(in_vram, core);
        let second = fewer(in_ram, (core - first) as nat);
        &&& read_of(self.vram, first, (in_vram - first) as nat, some, rest)
        &&& read_of(self.ram, second, (in_ram - second) as nat, some, rest)
        &&& near(self.vram + self.ram + self.disk, read * one(), 12)
        &&& near(resident.units() * read, self.vram + self.ram, 4)
        &&& resident.finite() && !resident.negative()
        &&& read_in(self.vram_time, self.vram, hw.vram_bw_gbs)
        &&& read_in(self.ram_time, self.ram, hw.ram_bw_gbs)
        &&& delivers(self.disk_gbs, hw.disk_gbs)
        &&& read_in(self.disk_time, self.disk, self.disk_gbs)
        &&& near(seconds.units(), self.vram_time + self.ram_time + self.disk_time, 4)
        &&& seconds.finite() && !seconds.negative()
    }
}

/// A number is nothing, or neither too small nor too large.
pub open spec fn plain_size(x: Double, i: nat) -> bool {
    x == (Double { bits: 0 }) || ordinary(x, i)
}

pub proof fn lemma_nothing()
    ensures
        (Double { bits: 0 }).units() == 0,
        (Double { bits: 0 }).finite(),
        !(Double { bits: 0 }).negative(),
        Double::count(0) == (Double { bits: 0 }),
        ordinary(Double { bits: BILLION_BITS }, 30),
        (Double { bits: BILLION_BITS }).units() == 1_000_000_000 * one(),
        one() > 0,
{
    small_counts_are_exact(0);
    assert(0 * pow2(1074) == 0) by (nonlinear_arith);
    lemma_between(Double { bits: BILLION_BITS }, 0x41C, 30);
    let g = Double { bits: BILLION_BITS };
    assert(g.significand() == 0x1D_CD65_0000_0000 && g.exponent() == -23);
    lemma_pow2_adds(23, 1051);
    lemma_powers_of_two();
    assert(0x1D_CD65_0000_0000 * pow2(1051) == 1_000_000_000 * (0x80_0000 * pow2(1051))) by (nonlinear_arith);
    lemma_pow2_grows(0, 1074);
}

pub proof fn lemma_bounded(x: Double, i: nat)
    requires
        plain_size(x, i),
    ensures
        x.finite(),
        !x.negative(),
        x.units() <= pow2(1074 + i),
{
    lemma_nothing();
}

/// The time that reading takes is the bytes by the bandwidth.
proof fn lemma_time(bytes: Double, gbs: Double)
    requires
        plain_size(bytes, 200),
        ordinary(gbs, 100),
    ensures
        plain_size(reading_time(bytes, gbs), 330),
        read_in(reading_time(bytes, gbs).units(), bytes.units(), gbs),
        bytes.units() == 0 ==> reading_time(bytes, gbs) == (Double { bits: 0 }),
{
    let g = Double { bits: BILLION_BITS };
    let b = gbs.product(g);
    let zero = Double { bits: 0 };
    let t = one();
    lemma_nothing();
    products_are_near(gbs, g, 100, 30);
    lemma_positive(b, 130);
    if bytes == zero {
        reveal(Double::quotient);
        assert(0 * t == 0) by (nonlinear_arith);
        lemma_zero_rounds_to_zero(b);
    } else {
        lemma_positive(bytes, 200);
        quotients_are_near(bytes, b, 200, 130);
        let s = bytes.quotient(b);
        let (x, y, w, z) = (s.units(), b.units(), gbs.units(), bytes.units());
        // x * y is about z * t, and y * t about w * 1e9 * t.
        assert(w * (1_000_000_000 * t) == (w * 1_000_000_000) * t) by (nonlinear_arith);
        nearness_cancels(y, w * 1_000_000_000, t, 1);
        nearness_scales(y, w * 1_000_000_000, x, 1);
        assert(y * x == x * y && (w * 1_000_000_000) * x == x * w * 1_000_000_000) by (nonlinear_arith);
        nearness_carries_over(x * w * 1_000_000_000, x * y, z * t, 1, 1);
        nearness_widens(x * w * 1_000_000_000, z * t, 3, 6);
    }
}

/// What a place serves of a token is what it holds of what is read.
proof fn lemma_served(p: MemoryPlan, pinned: nat, cached: nat, some: nat, rest: nat)
    requires
        p.active_cold == Double::count(some),
        p.cold_total == Double::count(rest),
        pinned <= 0x20_0000_0000_0000,
        cached <= rest <= 0x20_0000_0000_0000,
        some <= 0x20_0000_0000_0000,
    ensures
        ({
            let s = served(p, Tier { pinned: Double::count(pinned), cached: Double::count(cached) });
            &&& plain_size(s, 170)
            &&& read_of(s.units(), pinned, cached, some, rest)
        }),
{
    let zero = Double { bits: 0 };
    let t = one();
    let (a, c, n, r) = (Double::count(pinned), Double::count(cached), Double::count(some), Double::count(rest));
    let s = served(p, Tier { pinned: a, cached: c });
    lemma_nothing();
    small_counts_are_exact(pinned);
    small_counts_are_exact(cached);
    small_counts_are_exact(some);
    small_counts_are_exact(rest);
    if pinned > 0 {
        lemma_count_is_ordinary(pinned);
    }
    let part = if zero.below(r) {
        n.product(c.quotient(r))
    } else {
        zero
    };
    if rest == 0 {
        assert(!zero.below(r));
        lemma_zero_adds_nothing(a);
        assert(s == a);
        if pinned > 0 {
            lemma_widen(a, 53, 170);
        }
    } else {
        lemma_count_is_ordinary(rest);
        lemma_positive(r, 53);
        lemma_part(cached, some, rest);
        lemma_bounded(part, 160);
        if pinned > 0 {
            lemma_bounded(a, 53);
        }
        lemma_pow2_grows(1127, 1234);
        lemma_pow2_grows(1074, 1234);
        lemma_pow2_grows(1235, 1974);
        assert(pow2(1235) == 2 * pow2(1234));
        sums_are_near(a, part);
        lemma_sum_is_plain(a, part);
        let u = part.units();
        nearness_scales(s.units(), a.units() + u, rest, 1);
        anything_is_near_itself(a.units() * rest, 3);
        nearness_adds(a.units() * rest, a.units() * rest, u * rest, (some * cached) * t, 3);
        assert((a.units() + u) * rest == a.units() * rest + u * rest) by (nonlinear_arith);
        nearness_carries_over(s.units() * rest, (a.units() + u) * rest, a.units() * rest + (some * cached) * t, 1, 3);
        assert(a.units() * rest + (some * cached) * t == (pinned * rest + some * cached) * t) by (nonlinear_arith)
            requires
                a.units() == pinned * t,
        ;
        nearness_widens(s.units() * rest, (pinned * rest + some * cached) * t, 5, 6);
    }
}

proof fn lemma_widen(x: Double, i: nat, j: nat)
    requires
        ordinary(x, i),
        i <= j <= 1000,
    ensures
        ordinary(x, j),
{
    lemma_pow2_grows((1074 - j) as nat, (1074 - i) as nat);
    lemma_pow2_grows(1074 + i, 1074 + j);
}

/// The share of what is read that is cached.
pub proof fn lemma_part(cached: nat, some: nat, rest: nat)
    requires
        0 < rest <= 0x20_0000_0000_0000,
        cached <= rest,
        some <= 0x20_0000_0000_0000,
    ensures
        ({
            let part = Double::count(some).product(Double::count(cached).quotient(Double::count(rest)));
            &&& plain_size(part, 160)
            &&& near(part.units() * rest, (some * cached) * one(), 3)
        }),
{
    let t = one();
    let (c, n, r) = (Double::count(cached), Double::count(some), Double::count(rest));
    lemma_nothing();
    small_counts_are_exact(cached);
    small_counts_are_exact(some);
    small_counts_are_exact(rest);
    lemma_count_is_ordinary(rest);
    lemma_positive(r, 53);
    if cached == 0 || some == 0 {
        if cached == 0 {
            assert(c.quotient(r) == (Double { bits: 0 })) by {
                reveal(Double::quotient);
                assert(0 * t == 0) by (nonlinear_arith);
                lemma_zero_rounds_to_zero(r);
            }
            nothing_times_anything(n);
        } else {
            lemma_count_is_ordinary(cached);
            quotients_are_near(c, r, 53, 53);
            nothing_times_anything(c.quotient(r));
        }
        assert(some * cached == 0) by (nonlinear_arith)
            requires
                some == 0 || cached == 0,
        ;
        assert(0 * rest == 0 && 0 * t == 0) by (nonlinear_arith);
        anything_is_near_itself(0, 3);
    } else {
        lemma_count_is_ordinary(cached);
        lemma_count_is_ordinary(some);
        quotients_are_near(c, r, 53, 53);
        let q = c.quotient(r);
        products_are_near(n, q, 53, 106);
        let part = n.product(q);
        lemma_widen(part, 159, 160);
        // q * rest is about cached * t, and part * t about some * t * q.
        assert(q.units() * (rest * t) == (q.units() * rest) * t) by (nonlinear_arith);
        assert((cached * t) * t == (cached * t) * t);
        nearness_cancels(q.units() * rest, cached * t, t, 1);
        assert((some * t) * q.units() == (some * q.units()) * t) by (nonlinear_arith);
        nearness_cancels(part.units(), some * q.units(), t, 1);
        nearness_scales(part.units(), some * q.units(), rest, 1);
        nearness_scales(q.units() * rest, cached * t, some, 1);
        assert((some * q.units()) * rest == (q.units() * rest) * some) by (nonlinear_arith);
        assert((cached * t) * some == (some * cached) * t) by (nonlinear_arith);
        nearness_carries_over(part.units() * rest, (some * q.units()) * rest, (some * cached) * t, 1, 1);
    }
}

proof fn lemma_sum_is_plain(a: Double, b: Double)
    requires
        plain_size(a, 53),
        plain_size(b, 160),
        a.finite() && b.finite() && !a.negative() && !b.negative(),
        near(a.sum(b).units(), a.units() + b.units(), 1),
        a.sum(b).finite() && !a.sum(b).negative(),
    ensures
        plain_size(a.sum(b), 170),
{
    lemma_nothing();
    let zero = Double { bits: 0 };
    if a == zero {
        lemma_zero_adds_nothing(b);
        if b != zero {
            lemma_widen(b, 160, 170);
        }
    } else if b == zero {
        lemma_zero_adds_nothing(a);
        lemma_widen(a, 53, 170);
    } else {
        lemma_widen(a, 53, 160);
        let (x, y) = (a.sum(b).units(), a.units() + b.units());
        let m = SLACK as int;
        assert(pow2(1235) == 2 * pow2(1234));
        assert(pow2(905) == 2 * pow2(904));
        lemma_pow2_grows(905, 914);
        assert(x <= 2 * y && y <= 2 * x) by (nonlinear_arith)
            requires
                x * m <= y * (m + 1),
                y * m <= x * (m + 1),
                m >= 1,
                x >= 0,
                y >= 0,
        ;
        lemma_pow2_grows(1236, 1244);
        assert(pow2(1236) == 2 * pow2(1235));
    }
}

/// What the disk is taken to deliver.
proof fn lemma_disk(disk: Double)
    requires
        disk.finite() ==> disk.negative() || disk.units() <= pow2(1174),
        !disk.infinite() || disk.negative(),
    ensures
        ({
            let d = disk.larger(Double { bits: SLOWEST_DISK_BITS });
            &&& delivers(d, disk)
            &&& ordinary(d, 100)
        }),
{
    let s = Double { bits: SLOWEST_DISK_BITS };
    let below = Double { bits: (SLOWEST_DISK_BITS - 1) as u64 };
    let d = disk.larger(s);
    let t = one();
    lemma_between(s, 0x3F8, 7);
    lemma_between(below, 0x3F8, 7);
    lemma_widen(s, 7, 100);
    assert(s.significand() == 0x14_7AE1_47AE_147B && s.exponent() == -59);
    assert(below.significand() == 0x14_7AE1_47AE_147A && below.exponent() == -59);
    lemma_pow2_adds(59, 1015);
    lemma_powers_of_two();
    let k = pow2(1015);
    lemma_pow2_grows(0, 1015);
    assert(s.units() * 100 >= t && below.units() * 100 < t) by (nonlinear_arith)
        requires
            s.units() == 0x14_7AE1_47AE_147B * k,
            below.units() == 0x14_7AE1_47AE_147A * k,
            t == 0x800_0000_0000_0000 * k,
            k >= 1,
    ;
    assert(near(s.units() * 100, t, 1)) by {
        let m = SLACK as nat;
        assert((s.units() * 100) * m <= t * (m + 1) && t * m <= (s.units() * 100) * (m + 1)) by (nonlinear_arith)
            requires
                s.units() == 0x14_7AE1_47AE_147B * k,
                t == 0x800_0000_0000_0000 * k,
                k >= 1,
                m == 0x4_0000_0000_0000,
        ;
    }
    if disk.finite() && !disk.negative() {
        if disk.magnitude() < s.magnitude() {
            units_follow_magnitudes(disk, below);
            assert(d == s);
        } else {
            units_follow_magnitudes(s, disk);
            lemma_pow2_grows(974, 1067);
            assert(d == disk);
        }
    } else {
        assert(d == s);
    }
}

/// Powers of two, as far as the last digits of ordinary numbers go.
pub proof fn lemma_powers_of_two()
    ensures
        pow2(2) == 0x4,
        pow2(9) == 0x200,
        pow2(20) == 0x10_0000,
        pow2(23) == 0x80_0000,
        pow2(43) == 0x800_0000_0000,
        pow2(46) == 0x4000_0000_0000,
        pow2(48) == 0x1_0000_0000_0000,
        pow2(49) == 0x2_0000_0000_0000,
        pow2(51) == 0x8_0000_0000_0000,
        pow2(52) == 0x10_0000_0000_0000,
        pow2(53) == 0x20_0000_0000_0000,
        pow2(54) == 0x40_0000_0000_0000,
        pow2(55) == 0x80_0000_0000_0000,
        pow2(56) == 0x100_0000_0000_0000,
        pow2(59) == 0x800_0000_0000_0000,
        pow2(72) == 0x100_0000_0000_0000_0000,
{
    reveal_with_fuel(pow2, 11);
    lemma_pow2_adds(10, 10);
    lemma_pow2_adds(20, 3);
    lemma_pow2_adds(20, 20);
    lemma_pow2_adds(40, 3);
    lemma_pow2_adds(40, 6);
    lemma_pow2_adds(40, 8);
    lemma_pow2_adds(40, 9);
    lemma_pow2_adds(48, 3);
    lemma_pow2_adds(48, 4);
    lemma_pow2_adds(48, 5);
    lemma_pow2_adds(48, 6);
    lemma_pow2_adds(48, 7);
    lemma_pow2_adds(48, 8);
    lemma_pow2_adds(56, 3);
    lemma_pow2_adds(52, 20);
}

/// The bytes left to the disk, where `fast` are served from memory.
proof fn lemma_left(read: nat, fast: Double)
    requires
        0 < read <= 0x20_0000_0000_0000,
        fast.finite(),
        !fast.negative(),
        fast.units() <= pow2(1900),
    ensures
        ({
            let left = Double::count(read).difference(fast).larger(Double { bits: 0 });
            &&& plain_size(left, 60)
            &&& fast.units() <= read * one() ==> near(left.units(), (read * one() - fast.units()) as nat, 1)
            &&& fast.units() > read * one() ==> left.units() == 0
        }),
{
    let a = Double::count(read);
    let zero = Double { bits: 0 };
    let t = one();
    let d = a.difference(fast);
    let left = d.larger(zero);
    lemma_nothing();
    small_counts_are_exact(read);
    lemma_count_is_ordinary(read);
    lemma_pow2_grows(1127, 1974);
    if fast.units() <= a.units() {
        differences_are_near(a, fast);
        let n = (a.units() - fast.units()) as nat;
        if n == 0 {
            assert(d.units() == 0);
            if !d.zero() {
                crate::double::laws::lemma_nonzero_units(d);
            }
        } else {
            assert(n >= pow2(1021)) by {
                lemma_apart(read, fast);
            }
            let m = SLACK as int;
            let (x, y) = (d.units() as int, n as int);
            assert(x <= 2 * y && y <= 2 * x) by (nonlinear_arith)
                requires
                    x * m <= y * (m + 1),
                    y * m <= x * (m + 1),
                    m >= 1,
                    x >= 0,
                    y >= 0,
            ;
            assert(pow2(1021) == 2 * pow2(1020));
            assert(pow2(1128) == 2 * pow2(1127));
            lemma_pow2_grows(1014, 1020);
            lemma_pow2_grows(1128, 1134);
            lemma_pow2_grows(0, 1020);
            assert(ordinary(d, 60));
            lemma_positive(d, 60);
        }
    } else {
        lemma_pow2_grows(1900, 1974);
        differences_are_near(fast, a);
        lemma_turned(a, fast);
        let e = fast.difference(a);
        lemma_doubles((fast.units() - a.units()) as nat, e.units());
        if e.zero() {
            assert(e.significand() == 0);
            assert(0 * pow2((e.exponent() + 1074) as nat) == 0) by (nonlinear_arith);
        }
        assert(d.below(zero));
    }
}

/// A difference the other way round is the same below nothing.
pub proof fn lemma_turned(a: Double, b: Double)
    requires
        a.finite() && b.finite(),
        !a.negative() && !b.negative(),
        a.units() < b.units(),
    ensures
        a.difference(b).negative(),
        a.difference(b).magnitude() == b.difference(a).magnitude(),
{
    let (o, w) = (b.opposite(), a.opposite());
    assert(o.magnitude() == b.magnitude() && o.negative() && o.units() == b.units());
    assert(w.magnitude() == a.magnitude() && w.negative() && w.units() == a.units());
    reveal(Double::sum);
}

/// What is left of whole bytes is no mere trace.
pub proof fn lemma_apart(read: nat, fast: Double)
    requires
        0 < read,
        fast.finite(),
        fast.units() < read * one(),
    ensures
        read * one() - fast.units() >= pow2(1021),
{
    let t = one();
    assert(pow2(1074) == 2 * pow2(1073));
    lemma_pow2_grows(1021, 1073);
    assert(read * t >= t) by (nonlinear_arith)
        requires
            read >= 1,
            t >= 0,
    ;
    if fast.units() >= pow2(1073) {
        let (m, k) = pieces_of_a_half(fast);
        let u = pow2(1021);
        lemma_pow2_grows(0, 1021);
        lemma_pow2_adds(1021, (k - 1021) as nat);
        lemma_pow2_adds(1021, 53);
        let (e, f) = (pow2((k - 1021) as nat), pow2(53));
        assert(read * t - m * pow2(k) == (read * f - m * e) * u) by (nonlinear_arith)
            requires
                t == u * f,
                pow2(k) == u * e,
        ;
        let n = read * f - m * e;
        assert(n * u >= u) by (nonlinear_arith)
            requires
                n * u > 0,
                u > 0,
        ;
    }
}

proof fn lemma_reads(p: MemoryPlan, m: ModelView, bytes: nat, hw: Hardware, prec: KvPrecision, ubatch: nat) -> (r: Reads)
    requires
        p.is_for(m, bytes, hw, prec, ubatch),
        0 < m.params <= u64::MAX,
        m.active() <= m.params,
        bytes <= 0x20_0000_0000_0000,
        m.active_bytes(bytes) > 0,
        p.vram_for_weights > 0 ==> ordinary(hw.vram_bw_gbs, 100),
        p.weights_cached > p.vram_for_weights ==> ordinary(hw.ram_bw_gbs, 100),
        hw.disk_gbs.finite() ==> hw.disk_gbs.negative() || hw.disk_gbs.units() <= pow2(1174),
        !hw.disk_gbs.infinite() || hw.disk_gbs.negative(),
    ensures
        r.come_to(
            p.seconds(hw),
            p.resident(hw),
            hw,
            bytes,
            m.active_bytes(bytes),
            m.hot_core(bytes),
            p.vram_for_weights as nat,
            p.weights_cached as nat,
        ),
        p.from_disk(hw).units() == r.disk,
        near(p.from_fast(hw).units(), r.vram + r.ram, 1),
        plain_size(p.from_fast(hw), 180),
{
    let (read, core) = (m.active_bytes(bytes), m.hot_core(bytes));
    let (in_vram, held) = (p.vram_for_weights as nat, p.weights_cached as nat);
    let in_ram = (held - in_vram) as nat;
    let zero = Double { bits: 0 };
    let t = one();
    the_hot_core_is_read_every_time(m, bytes);
    active_bytes_are_part_of_the_file(m, bytes);
    lemma_nothing();
    lemma_beyond(bytes, core);
    lemma_beyond(read, core);
    let (some, rest) = ((read - core) as nat, (bytes - core) as nat);
    let first = fewer(in_vram, core);
    let second = fewer(in_ram, (core - first) as nat);
    let (cv, cr) = ((in_vram - first) as nat, (in_ram - second) as nat);
    lemma_placed(p, m, bytes, hw, prec, ubatch);
    let (sv, sr) = (served(p, p.vram), served(p, p.ram));
    lemma_served(p, first, cv, some, rest);
    lemma_served(p, second, cr, some, rest);
    lemma_bounded(sv, 170);
    lemma_bounded(sr, 170);
    // What is served.
    let fast = p.from_fast(hw);
    lemma_zero_adds_nothing(sv);
    if in_vram > 0 {
        lemma_positive(hw.vram_bw_gbs, 100);
        lemma_widen_plain(sv, 170, 200);
        lemma_time(sv, hw.vram_bw_gbs);
    } else {
        lemma_empty_place(sv, some, rest);
    }
    if in_ram > 0 {
        lemma_positive(hw.ram_bw_gbs, 100);
        lemma_widen_plain(sr, 170, 200);
        lemma_time(sr, hw.ram_bw_gbs);
    } else {
        lemma_empty_place(sr, some, rest);
    }
    let (v, w) = (p.vram_seconds(hw), p.fast_seconds(hw));
    let tr = if in_ram > 0 { reading_time(sr, hw.ram_bw_gbs) } else { zero };
    assert(p.from_vram(hw) == sv);
    lemma_sizes();
    sums_are_near(sv, sr);
    lemma_zero_adds_nothing(sv);
    assert(fast == sv.sum(sr)) by {
        if in_ram == 0 {
            assert(sr == zero);
        }
    }
    lemma_both_plain(sv, sr);
    lemma_fast_is_part(sv.units(), sr.units(), first, cv, second, cr, core, some, rest);
    lemma_left(read, fast);
    let left = p.from_disk(hw);
    lemma_all_is_read(read, sv.units() + sr.units(), fast.units(), left.units());
    // What it takes.
    lemma_disk(hw.disk_gbs);
    let gbs = hw.disk_gbs.larger(Double { bits: SLOWEST_DISK_BITS });
    lemma_widen_plain(left, 60, 200);
    lemma_time(left, gbs);
    let td = reading_time(left, gbs);
    let tv = if in_vram > 0 { reading_time(sv, hw.vram_bw_gbs) } else { zero };
    lemma_bounded(tv, 330);
    lemma_bounded(tr, 330);
    lemma_bounded(td, 330);
    lemma_zero_adds_nothing(tv);
    assert(v == tv);
    assert(w == tv.sum(tr)) by {
        lemma_zero_adds_nothing(tv);
    }
    sums_are_near(tv, tr);
    lemma_doubles(tv.units() + tr.units(), w.units());
    sums_are_near(w, td);
    nearness_widens(w.units(), tv.units() + tr.units(), 1, 1);
    anything_is_near_itself(td.units(), 1);
    nearness_adds(w.units(), tv.units() + tr.units(), td.units(), td.units(), 1);
    nearness_carries_over(p.seconds(hw).units(), w.units() + td.units(), tv.units() + tr.units() + td.units(), 1, 1);
    nearness_widens(p.seconds(hw).units(), tv.units() + tr.units() + td.units(), 3, 4);
    lemma_resident_share(read, fast, sv.units() + sr.units());
    Reads {
        vram: sv.units(),
        ram: sr.units(),
        disk: left.units(),
        vram_time: tv.units(),
        ram_time: tr.units(),
        disk_time: td.units(),
        disk_gbs: gbs,
    }
}

/// The share of a token that memory serves.
proof fn lemma_resident_share(read: nat, fast: Double, served: nat)
    requires
        0 < read <= 0x20_0000_0000_0000,
        plain_size(fast, 180),
        near(fast.units(), served, 1),
    ensures
        ({
            let f = fast.quotient(Double::count(read));
            &&& (Double { bits: 0 }).below(Double::count(read))
            &&& near(f.units() * read, served, 4)
            &&& f.finite() && !f.negative()
        }),
{
    let a = Double::count(read);
    let t = one();
    let f = fast.quotient(a);
    lemma_nothing();
    small_counts_are_exact(read);
    lemma_count_is_ordinary(read);
    lemma_positive(a, 53);
    if fast == (Double { bits: 0 }) {
        assert(f == (Double { bits: 0 })) by {
            reveal(Double::quotient);
            assert(0 * t == 0) by (nonlinear_arith);
            lemma_zero_rounds_to_zero(a);
        }
        assert(0 * read == 0) by (nonlinear_arith);
        nearness_widens(0, served, 1, 4);
    } else {
        quotients_are_near(fast, a, 180, 53);
        assert(f.units() * (read * t) == (f.units() * read) * t) by (nonlinear_arith);
        nearness_cancels(f.units() * read, fast.units(), t, 1);
        nearness_carries_over(f.units() * read, fast.units(), served, 1, 1);
        nearness_widens(f.units() * read, served, 3, 4);
    }
}

/// Where the weights lie, to the byte.
proof fn lemma_placed(p: MemoryPlan, m: ModelView, bytes: nat, hw: Hardware, prec: KvPrecision, ubatch: nat)
    requires
        p.is_for(m, bytes, hw, prec, ubatch),
        m.hot_core(bytes) <= bytes <= 0x20_0000_0000_0000,
        p.vram_for_weights > 0 ==> ordinary(hw.vram_bw_gbs, 100),
        p.weights_cached > p.vram_for_weights ==> ordinary(hw.ram_bw_gbs, 100),
    ensures
        ({
            let core = m.hot_core(bytes);
            let (in_vram, held) = (p.vram_for_weights as nat, p.weights_cached as nat);
            let in_ram = (held - in_vram) as nat;
            let first = fewer(in_vram, core);
            let second = fewer(in_ram, (core - first) as nat);
            &&& in_vram <= held <= bytes
            &&& p.vram == (Tier { pinned: Double::count(first), cached: Double::count((in_vram - first) as nat) })
            &&& p.ram == (Tier { pinned: Double::count(second), cached: Double::count((in_ram - second) as nat) })
            &&& in_vram - first <= bytes - core
            &&& in_ram - second <= bytes - core
        }),
{
    let core = m.hot_core(bytes);
    let rest = (bytes - core) as nat;
    let (in_vram, held) = (p.vram_for_weights as nat, p.weights_cached as nat);
    let in_ram = (held - in_vram) as nat;
    let first = fewer(in_vram, core);
    lemma_nothing();
    lemma_beyond(bytes, core);
    if in_vram > 0 {
        lemma_positive(hw.vram_bw_gbs, 100);
        a_tier_is_filled_exactly(in_vram, hw.vram_bw_gbs, core, rest);
    }
    small_counts_are_taken_exactly(core, first);
    small_counts_are_taken_exactly(rest, (in_vram - first) as nat);
    if in_ram > 0 {
        lemma_positive(hw.ram_bw_gbs, 100);
        a_tier_is_filled_exactly(in_ram, hw.ram_bw_gbs, (core - first) as nat, (rest - (in_vram - first)) as nat);
    }
}

proof fn lemma_widen_plain(x: Double, i: nat, j: nat)
    requires
        plain_size(x, i),
        i <= j <= 1000,
    ensures
        plain_size(x, j),
{
    if x != (Double { bits: 0 }) {
        lemma_widen(x, i, j);
    }
}

/// A place that holds nothing serves nothing.
proof fn lemma_empty_place(s: Double, some: nat, rest: nat)
    requires
        plain_size(s, 170),
        read_of(s.units(), 0, 0, some, rest),
    ensures
        s == (Double { bits: 0 }),
        s.units() == 0,
{
    lemma_nothing();
    lemma_empty(s.units(), some, rest);
    if s != (Double { bits: 0 }) {
        lemma_positive(s, 170);
    }
}

proof fn lemma_sizes()
    ensures
        2 * pow2(1244) <= pow2(1900),
        8 * pow2(1404) <= pow2(1900),
        pow2(1900) <= pow2(1974),
{
    lemma_pow2_grows(1245, 1900);
    assert(pow2(1245) == 2 * pow2(1244));
    assert(pow2(1405) == 2 * pow2(1404));
    assert(pow2(1406) == 2 * pow2(1405));
    assert(pow2(1407) == 2 * pow2(1406));
    lemma_pow2_grows(1407, 1900);
    lemma_pow2_grows(1900, 1974);
}

/// What is near is no more than twice.
proof fn lemma_doubles(x: nat, y: nat)
    requires
        near(y, x, 1),
    ensures
        y <= 2 * x,
        x <= 2 * y,
{
    let m = SLACK as int;
    let (x, y) = (x as int, y as int);
    assert(x <= 2 * y && y <= 2 * x) by (nonlinear_arith)
        requires
            x * m <= y * (m + 1),
            y * m <= x * (m + 1),
            m >= 1,
            x >= 0,
            y >= 0,
    ;
}

proof fn lemma_both_plain(a: Double, b: Double)
    requires
        plain_size(a, 170),
        plain_size(b, 170),
        near(a.sum(b).units(), a.units() + b.units(), 1),
        a.sum(b).finite() && !a.sum(b).negative(),
    ensures
        plain_size(a.sum(b), 180),
        a.sum(b).units() <= pow2(1900),
{
    lemma_nothing();
    lemma_sizes();
    lemma_bounded(a, 170);
    lemma_bounded(b, 170);
    lemma_doubles(a.units() + b.units(), a.sum(b).units());
    let zero = Double { bits: 0 };
    if a == zero {
        lemma_zero_adds_nothing(b);
        lemma_widen_plain(b, 170, 180);
    } else if b == zero {
        lemma_zero_adds_nothing(a);
        lemma_widen_plain(a, 170, 180);
    } else {
        assert(pow2(904) == 2 * pow2(903));
        lemma_pow2_grows(894, 903);
        assert(pow2(1245) == 2 * pow2(1244));
        assert(pow2(1246) == 2 * pow2(1245));
        lemma_pow2_grows(1246, 1254);
    }
    lemma_pow2_grows(1254, 1900);
}

/// Memory serves no more than is read.
proof fn lemma_fast_is_part(v: nat, r: nat, first: nat, cv: nat, second: nat, cr: nat, core: nat, some: nat, rest: nat)
    requires
        read_of(v, first, cv, some, rest),
        read_of(r, second, cr, some, rest),
        first + second <= core,
        cv + cr <= rest,
        rest == 0 ==> some == 0,
    ensures
        (v + r) * SLACK <= ((core + some) * one()) * (SLACK + 6),
{
    let t = one();
    let (m, n) = (SLACK as nat, SLACK as nat + 6);
    if rest == 0 {
        assert(v + r == (first + second) * t && (first + second) * t <= core * t) by (nonlinear_arith)
            requires
                v == first * t,
                r == second * t,
                first + second <= core,
        ;
        assert((v + r) * m <= (core * t) * n) by (nonlinear_arith)
            requires
                v + r <= core * t,
                m <= n,
        ;
    } else {
        let (a, b) = ((first * rest + some * cv) * t, (second * rest + some * cr) * t);
        let all = (core + some) * t;
        nearness_adds(v * rest, a, r * rest, b, 6);
        assert(v * rest + r * rest == (v + r) * rest) by (nonlinear_arith);
        assert(a + b <= all * rest) by (nonlinear_arith)
            requires
                a == (first * rest + some * cv) * t,
                b == (second * rest + some * cr) * t,
                all == (core + some) * t,
                first + second <= core,
                cv + cr <= rest,
        ;
        assert((v + r) * m <= all * n) by (nonlinear_arith)
            requires
                ((v + r) * rest) * m <= (a + b) * n,
                a + b <= all * rest,
                rest > 0,
                n > 0,
        ;
    }
}

/// All that is read is read from somewhere.
proof fn lemma_all_is_read(read: nat, served: nat, fast: nat, left: nat)
    requires
        served * SLACK <= (read * one()) * (SLACK + 6),
        near(fast, served, 1),
        fast <= read * one() ==> near(left, (read * one() - fast) as nat, 1),
        fast > read * one() ==> left == 0,
    ensures
        near(served + left, read * one(), 12),
{
    let all = read * one();
    let m = SLACK as int;
    let (s, f, l, a) = (served as int, fast as int, left as int, all as int);
    if fast <= all {
        nearness_adds(served, fast, left, (all - fast) as nat, 1);
        nearness_widens(served + left, all, 1, 12);
    } else {
        assert(s * m <= a * (m + 12)) by (nonlinear_arith)
            requires
                s * m <= a * (m + 6),
                a >= 0,
        ;
        assert(a * m <= s * (m + 12)) by (nonlinear_arith)
            requires
                f * m <= s * (m + 1),
                a <= f,
                s >= 0,
                m > 0,
        ;
    }
}

/// A token takes the time of its reads: what VRAM and memory hold of it at
/// their bandwidths, and all that is left at the disk's.
pub proof fn a_token_takes_the_time_of_its_reads(p: MemoryPlan, m: ModelView, bytes: nat, hw: Hardware, prec: KvPrecision, ubatch: nat)
    requires
        p.is_for(m, bytes, hw, prec, ubatch),
        0 < m.params <= u64::MAX,
        m.active() <= m.params,
        bytes <= 0x20_0000_0000_0000,
        m.active_bytes(bytes) > 0,
        p.vram_for_weights > 0 ==> ordinary(hw.vram_bw_gbs, 100),
        p.weights_cached > p.vram_for_weights ==> ordinary(hw.ram_bw_gbs, 100),
        hw.disk_gbs.finite() ==> hw.disk_gbs.negative() || hw.disk_gbs.units() <= pow2(1174),
        !hw.disk_gbs.infinite() || hw.disk_gbs.negative(),
    ensures
        exists|r: Reads|
            #[trigger] r.come_to(
                p.seconds(hw),
                p.resident(hw),
                hw,
                bytes,
                m.active_bytes(bytes),
                m.hot_core(bytes),
                p.vram_for_weights as nat,
                p.weights_cached as nat,
            ),
{
    let r = lemma_reads(p, m, bytes, hw, prec, ubatch);
}

proof fn lemma_no_more_than_held(v: nat, pinned: nat, cached: nat, some: nat, rest: nat)
    requires
        read_of(v, pinned, cached, some, rest),
        cached <= rest,
        some <= rest,
    ensures
        hardly_above(v, (pinned + cached) * one(), 6),
{
    let t = one();
    let (m, n) = (SLACK as nat, SLACK as nat + 6);
    let all = (pinned + cached) * t;
    if rest == 0 {
        lemma_above_widens(v, all, 0, 6);
    } else {
        let b = (pinned * rest + some * cached) * t;
        assert(b <= all * rest) by (nonlinear_arith)
            requires
                b == (pinned * rest + some * cached) * t,
                all == (pinned + cached) * t,
                some <= rest,
        ;
        assert(v * m <= all * n) by (nonlinear_arith)
            requires
                (v * rest) * m <= b * n,
                b <= all * rest,
                rest > 0,
                n > 0,
        ;
    }
}

proof fn lemma_empty(x: nat, some: nat, rest: nat)
    requires
        read_of(x, 0, 0, some, rest),
    ensures
        x == 0,
{
    let m = SLACK as nat;
    let y = (0 * rest + some * 0) * one();
    assert(y == 0 && 0 * one() == 0) by (nonlinear_arith)
        requires
            y == (0 * rest + some * 0) * one(),
    ;
    if rest > 0 {
        assert(x == 0) by (nonlinear_arith)
            requires
                (x * rest) * m <= y * (m + 6),
                y == 0,
                rest > 0,
                m > 0,
                x >= 0,
        ;
    }
}

/// The disk's part of a token is no more than the token.
proof fn lemma_disk_part(s: nat, other: nat, time: nat, disk: nat, g: nat)
    requires
        near(s, other + time, 4),
        disk > 0 ==> near(time * g * 1_000_000_000, disk * one(), 6),
    ensures
        hardly_above(disk * one(), s * g * 1_000_000_000, 11),
{
    let e = g * 1_000_000_000;
    let m = SLACK as nat;
    assert(time * m <= (other + time) * m) by (nonlinear_arith);
    lemma_above_scaled(time, s, e, 4);
    assert(time * e == time * g * 1_000_000_000 && s * e == s * g * 1_000_000_000) by (nonlinear_arith)
        requires
            e == g * 1_000_000_000,
    ;
    if disk > 0 {
        lemma_above_chain(disk * one(), time * e, s * e, 6, 4);
    } else {
        assert(0 * one() == 0) by (nonlinear_arith);
        assert(0 * m <= (s * e) * (m + 11)) by (nonlinear_arith);
    }
}

proof fn lemma_disk_bound(read: nat, in_vram: nat, in_ram: nat, v: nat, r: nat, d: nat, x: nat)
    requires
        near(v + r + d, read * one(), 12),
        hardly_above(v, in_vram * one(), 6),
        hardly_above(r, in_ram * one(), 6),
        hardly_above(d * one(), x, 11),
    ensures
        hardly_above(read * one() * one(), (in_vram + in_ram) * one() * one() + x, 40),
{
    let t = one();
    lemma_above_scaled(read * t, v + r + d, t, 12);
    assert((v + r + d) * t == v * t + r * t + d * t) by (nonlinear_arith);
    lemma_above_adds(v, in_vram * t, r, in_ram * t, 6);
    assert(in_vram * t + in_ram * t == (in_vram + in_ram) * t) by (nonlinear_arith);
    let held = (in_vram + in_ram) * t;
    lemma_above_scaled(v + r, held, t, 6);
    lemma_above_widens((v + r) * t, held * t, 6, 11);
    lemma_above_adds((v + r) * t, held * t, d * t, x, 11);
    assert((v + r) * t + d * t == (v + r + d) * t) by (nonlinear_arith);
    lemma_above_chain(read * t * t, (v + r + d) * t, held * t + x, 12, 11);
    lemma_above_widens(read * t * t, held * t + x, 24, 40);
}

proof fn lemma_disk_share(read: nat, share: nat, served: nat, d: nat, x: nat)
    requires
        near(served + d, read * one(), 12),
        near(share, served, 4),
        hardly_above(d * one(), x, 11),
    ensures
        hardly_above(read * one() * one(), share * one() + x, 40),
{
    let t = one();
    lemma_above_scaled(read * t, served + d, t, 12);
    lemma_above_scaled(served, share, t, 4);
    lemma_above_widens(served * t, share * t, 4, 11);
    lemma_above_adds(served * t, share * t, d * t, x, 11);
    assert(served * t + d * t == (served + d) * t) by (nonlinear_arith);
    lemma_above_chain(read * t * t, (served + d) * t, share * t + x, 12, 11);
    lemma_above_widens(read * t * t, share * t + x, 24, 40);
}

proof fn lemma_disk_alone(read: nat, s: nat, time: nat, d: nat, g: nat)
    requires
        near(d, read * one(), 12),
        d > 0 ==> near(time * g * 1_000_000_000, d * one(), 6),
        d == 0 ==> time == 0,
        near(s, time, 4),
    ensures
        near(s * g * 1_000_000_000, read * one() * one(), 40),
{
    let t = one();
    let e = g * 1_000_000_000;
    assert(time * e == time * g * 1_000_000_000 && s * e == s * g * 1_000_000_000) by (nonlinear_arith)
        requires
            e == g * 1_000_000_000,
    ;
    nearness_scales(s, time, e, 4);
    nearness_scales(d, read * t, t, 12);
    if d == 0 {
        assert(0 * e == 0 && 0 * t == 0) by (nonlinear_arith);
        anything_is_near_itself(0, 6);
    }
    nearness_carries_over(s * e, time * e, d * t, 4, 6);
    nearness_carries_over(s * e, d * t, read * t * t, 11, 12);
    nearness_widens(s * e, read * t * t, 24, 40);
}

/// What memory does not hold is read from the disk, token for token, and takes
/// its time: the seconds of a token at the disk's bandwidth, and the bytes that
/// memory holds, make up all that is read. With nothing in memory the seconds
/// are what is read at the disk's bandwidth.
pub proof fn the_disk_is_never_free(p: MemoryPlan, m: ModelView, bytes: nat, hw: Hardware, prec: KvPrecision, ubatch: nat)
    requires
        p.is_for(m, bytes, hw, prec, ubatch),
        0 < m.params <= u64::MAX,
        m.active() <= m.params,
        bytes <= 0x20_0000_0000_0000,
        m.active_bytes(bytes) > 0,
        p.vram_for_weights > 0 ==> ordinary(hw.vram_bw_gbs, 100),
        p.weights_cached > p.vram_for_weights ==> ordinary(hw.ram_bw_gbs, 100),
        ordinary(hw.disk_gbs, 100),
        hw.disk_gbs.units() * 100 >= one(),
    ensures
        ({
            let read = m.active_bytes(bytes) * one() * one();
            let held = p.weights_cached as nat * one() * one();
            let by_disk = p.seconds(hw).units() * hw.disk_gbs.units() * 1_000_000_000;
            &&& hardly_above(read, held + by_disk, 40)
            &&& p.weights_cached == 0 ==> near(by_disk, read, 40)
        }),
        // The same by the share that is resident.
        hardly_above(
            m.active_bytes(bytes) * one() * one(),
            p.resident(hw).units() * m.active_bytes(bytes) * one() + p.seconds(hw).units() * hw.disk_gbs.units() * 1_000_000_000,
            40,
        ),
{
    let r = lemma_reads(p, m, bytes, hw, prec, ubatch);
    let (read, core) = (m.active_bytes(bytes), m.hot_core(bytes));
    let (in_vram, held) = (p.vram_for_weights as nat, p.weights_cached as nat);
    let t = one();
    the_hot_core_is_read_every_time(m, bytes);
    active_bytes_are_part_of_the_file(m, bytes);
    lemma_placed(p, m, bytes, hw, prec, ubatch);
    let in_ram = (held - in_vram) as nat;
    let first = fewer(in_vram, core);
    let second = fewer(in_ram, (core - first) as nat);
    let (some, rest) = ((read - core) as nat, (bytes - core) as nat);
    lemma_no_more_than_held(r.vram, first, (in_vram - first) as nat, some, rest);
    lemma_no_more_than_held(r.ram, second, (in_ram - second) as nat, some, rest);
    let g = hw.disk_gbs.units();
    let s = p.seconds(hw).units();
    let share = p.resident(hw).units() * read;
    lemma_nothing();
    lemma_disk_part(s, r.vram_time + r.ram_time, r.disk_time, r.disk, g);
    lemma_disk_bound(read, in_vram, in_ram, r.vram, r.ram, r.disk, s * g * 1_000_000_000);
    lemma_disk_share(read, share, r.vram + r.ram, r.disk, s * g * 1_000_000_000);
    if held == 0 {
        lemma_empty(r.vram, some, rest);
        lemma_empty(r.ram, some, rest);
        lemma_disk_alone(read, s, r.disk_time, r.disk, g);
    }
}

} // verus!
