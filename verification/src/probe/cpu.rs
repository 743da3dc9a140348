//! CPU topology and ISA features.
//!
//! The output that matters is `recommended_threads`. Inference splits a matmul
//! across threads and joins at the end, so the slowest participant sets the
//! pace: hyperthread siblings starve each other and efficiency cores make the
//! fast ones wait. So: physical performance cores.

use vstd::prelude::*;
use crate::chars::{
    begins, copy, cut, cut_at, find_line, first_with, holds, lines, lines_of, parse_unsigned, same, split, split_on, starts_with,
    texts, trim, trimmed, unsigned, words, words_of, chars_of, string_of,
};

verus! {

#[derive(Debug, Clone, Copy, PartialEq, Eq, Structural)]
pub struct IsaFeatures {
    pub avx2: bool,
    pub avx512f: bool,
    pub f16c: bool,
    /// ARM SDOT/UDOT: large speedup for int8 quantised matmul.
    pub neon_dotprod: bool,
    /// ARM int8 matrix multiply.
    pub neon_i8mm: bool,
}

/// A reading as it was taken, for bug reports.
pub struct Reading {
    pub key: String,
    pub value: String,
}

pub struct Cpu {
    pub brand: String,
    pub physical: u32,
    pub logical: u32,
    /// Performance cores. Equals `physical` on homogeneous CPUs.
    pub p_cores: u32,
    /// Efficiency cores. Zero on homogeneous CPUs.
    pub e_cores: u32,
    pub smt: bool,
    /// Last-level cache in bytes, best effort.
    pub llc_bytes: u64,
    pub cache_line: u64,
    pub features: IsaFeatures,
    /// What to run inference with.
    pub recommended_threads: u32,
    /// The readings that the rest was derived from.
    pub raw: Vec<Reading>,
}

/// The threads to run inference with: the performance cores of a mixed CPU,
/// the physical cores of any other, and at least one.
pub open spec fn threads_for(p_cores: nat, e_cores: nat, physical: nat) -> nat {
    let n = if p_cores > 0 && e_cores > 0 { p_cores } else { physical };
    if n >= 1 {
        n
    } else {
        1
    }
}

impl Cpu {
    /// Derive what follows from the counts.
    pub fn finish(self) -> (r: Cpu)
        ensures
            r == (Cpu {
                smt: self.logical > self.physical,
                recommended_threads: r.recommended_threads,
                ..self
            }),
            r.recommended_threads == threads_for(self.p_cores as nat, self.e_cores as nat, self.physical as nat),
    {
        let mut r = self;
        let n: u32 = if r.p_cores > 0 && r.e_cores > 0 { r.p_cores } else { r.physical };
        r.smt = r.logical > r.physical;
        r.recommended_threads = if n >= 1 { n } else { 1 };
        r
    }
}

/// There is always a thread to run on, and never one per hyperthread sibling.
pub proof fn threads_are_physical_cores(p_cores: nat, e_cores: nat, physical: nat)
    requires
        p_cores + e_cores <= physical,
    ensures
        1 <= threads_for(p_cores, e_cores, physical),
        physical >= 1 ==> threads_for(p_cores, e_cores, physical) <= physical,
{
}

// -------------------------------------------------------------------- lists

/// The CPUs a range covers, counted as 32 bits count.
pub open spec fn range_len(a: nat, b: nat) -> nat {
    if b + 1 >= a {
        ((b + 1 - a) as nat) % 0x1_0000_0000
    } else {
        (0x1_0000_0000 + b + 1 - a) as nat
    }
}

/// The CPUs that one part of a kernel list names.
pub open spec fn list_part(part: Seq<char>) -> nat {
    match cut(part, '-') {
        Some((a, b)) => match (unsigned(trim(a), u32::MAX as nat), unsigned(trim(b), u32::MAX as nat)) {
            (Some(x), Some(y)) => range_len(x, y),
            _ => 0,
        },
        None => if unsigned(trim(part), u32::MAX as nat) is Some {
            1
        } else {
            0
        },
    }
}

pub open spec fn list_total(parts: Seq<Seq<char>>) -> nat
    decreases parts.len(),
{
    if parts.len() == 0 {
        0
    } else {
        (list_total(parts.drop_last()) + list_part(parts.last())) % 0x1_0000_0000
    }
}

fn list_part_len(part: &str) -> (r: u64)
    ensures
        r as nat == list_part(part@),
        r < 0x1_0000_0000,
{
    match cut_at(part, '-') {
        Some((a, b)) => {
            let x = parse_unsigned(trimmed(a.as_str()).as_str(), u32::MAX as u64);
            let y = parse_unsigned(trimmed(b.as_str()).as_str(), u32::MAX as u64);
            match (x, y) {
                (Some(x), Some(y)) => {
                    proof {
                        lemma_unsigned_bound(trim(a@), u32::MAX as nat);
                        lemma_unsigned_bound(trim(b@), u32::MAX as nat);
                    }
                    if y + 1 >= x {
                        (y + 1 - x) % 0x1_0000_0000
                    } else {
                        0x1_0000_0000 + y + 1 - x
                    }
                },
                _ => 0,
            }
        },
        None => if parse_unsigned(trimmed(part).as_str(), u32::MAX as u64).is_some() {
            1
        } else {
            0
        },
    }
}

pub proof fn lemma_unsigned_bound(s: Seq<char>, max: nat)
    ensures
        unsigned(s, max) matches Some(n) ==> n <= max,
{
}

/// Parse a kernel cpulist ("0-7,16-23") into a count.
pub fn cpulist_len(s: &str) -> (r: u32)
    ensures
        r as nat == list_total(split(s@, ',')),
{
    let parts = split_on(s, ',');
    let ghost all = texts(parts@);
    let mut total: u64 = 0;
    let mut i: usize = 0;
    while i < parts.len()
        invariant
            i <= parts@.len(),
            all == texts(parts@),
            total < 0x1_0000_0000,
            total as nat == list_total(all.subrange(0, i as int)),
        decreases parts@.len() - i,
    {
        assert(all.subrange(0, i + 1).drop_last() =~= all.subrange(0, i as int));
        assert(all.subrange(0, i + 1).last() == parts@[i as int]@);
        total = (total + list_part_len(parts[i].as_str())) % 0x1_0000_0000;
        i += 1;
    }
    assert(all.subrange(0, i as int) =~= all);
    total as u32
}

// ------------------------------------------------------------- /proc/cpuinfo

/// How many of the lines start with `p`.
pub open spec fn count_with(l: Seq<Seq<char>>, p: Seq<char>) -> nat
    decreases l.len(),
{
    if l.len() == 0 {
        0
    } else {
        count_with(l.drop_last(), p) + (if starts_with(l.last(), p) { 1nat } else { 0 })
    }
}

/// What follows the colon of a line, trimmed.
pub open spec fn value_of(line: Option<Seq<char>>) -> Option<Seq<char>> {
    match line {
        Some(l) => match cut(l, ':') {
            Some((k, v)) => Some(trim(v)),
            None => None,
        },
        None => None,
    }
}

/// What is known while the processors are read one block after the other.
pub struct CoreScan {
    pub package: Option<nat>,
    pub core: Option<nat>,
    pub seen: Seq<(nat, nat)>,
}

/// The block is over: its package and core count, once.
pub open spec fn close_block(s: CoreScan) -> CoreScan {
    CoreScan {
        package: None,
        core: None,
        seen: match (s.package, s.core) {
            (Some(p), Some(c)) => if s.seen.contains((p, c)) {
                s.seen
            } else {
                s.seen.push((p, c))
            },
            _ => s.seen,
        },
    }
}

/// A line names the package or the core of its processor; an empty one ends
/// the block.
pub open spec fn scan_line(s: CoreScan, line: Seq<char>) -> CoreScan {
    let named = match cut(line, ':') {
        Some((k, v)) => if trim(k) == "physical id"@ {
            CoreScan { package: unsigned(trim(v), u32::MAX as nat), ..s }
        } else if trim(k) == "core id"@ {
            CoreScan { core: unsigned(trim(v), u32::MAX as nat), ..s }
        } else {
            s
        },
        None => s,
    };
    if trim(line).len() == 0 {
        close_block(named)
    } else {
        named
    }
}

pub open spec fn scan_lines(l: Seq<Seq<char>>) -> CoreScan
    decreases l.len(),
{
    if l.len() == 0 {
        CoreScan { package: None, core: None, seen: Seq::empty() }
    } else {
        scan_line(scan_lines(l.drop_last()), l.last())
    }
}

/// The distinct cores: the (package, core) pairs of the processors.
pub open spec fn distinct_cores(l: Seq<Seq<char>>) -> Seq<(nat, nat)> {
    close_block(scan_lines(l)).seen
}

/// No core is counted twice.
pub proof fn cores_are_distinct(l: Seq<Seq<char>>)
    ensures
        scan_lines(l).seen.no_duplicates(),
        distinct_cores(l).no_duplicates(),
    decreases l.len(),
{
    if l.len() > 0 {
        cores_are_distinct(l.drop_last());
    }
}

spec fn wide_pairs(v: Seq<(u32, u32)>) -> Seq<(nat, nat)> {
    v.map_values(|p: (u32, u32)| (p.0 as nat, p.1 as nat))
}

spec fn wide(o: Option<u32>) -> Option<nat> {
    match o {
        Some(x) => Some(x as nat),
        None => None,
    }
}

fn read_u32(s: &str) -> (r: Option<u32>)
    ensures
        wide(r) == unsigned(trim(s@), u32::MAX as nat),
{
    let t = trimmed(s);
    match parse_unsigned(t.as_str(), u32::MAX as u64) {
        Some(x) => {
            proof {
                lemma_unsigned_bound(trim(s@), u32::MAX as nat);
            }
            Some(x as u32)
        },
        None => None,
    }
}

fn end_block(seen: &mut Vec<(u32, u32)>, package: Option<u32>, core: Option<u32>)
    ensures
        ({
            let s = CoreScan { package: wide(package), core: wide(core), seen: wide_pairs(old(seen)@) };
            wide_pairs(final(seen)@) == close_block(s).seen
        }),
        final(seen)@.len() <= old(seen)@.len() + 1,
{
    if let (Some(p), Some(c)) = (package, core) {
        let ghost w = wide_pairs(seen@);
        let ghost pair = (p as nat, c as nat);
        let mut i: usize = 0;
        while i < seen.len()
            invariant
                i <= seen@.len(),
                seen@ == old(seen)@,
                w == wide_pairs(seen@),
                package == Some(p),
                core == Some(c),
                pair == (p as nat, c as nat),
                forall|j: int| 0 <= j < i ==> w[j] != pair,
            decreases seen@.len() - i,
        {
            if seen[i].0 == p && seen[i].1 == c {
                assert(w[i as int] == pair);
                assert(w.contains(pair));
                return;
            }
            i += 1;
        }
        assert(!w.contains(pair));
        seen.push((p, c));
        assert(wide_pairs(seen@) =~= w.push(pair));
    }
}

fn count_cores(l: &Vec<String>) -> (r: usize)
    ensures
        r as nat == distinct_cores(texts(l@)).len(),
{
    let ghost all = texts(l@);
    let mut seen: Vec<(u32, u32)> = Vec::new();
    let mut package: Option<u32> = None;
    let mut core: Option<u32> = None;
    let mut i: usize = 0;
    assert(wide_pairs(seen@) =~= Seq::<(nat, nat)>::empty());
    assert(all.subrange(0, 0) =~= Seq::<Seq<char>>::empty());
    while i < l.len()
        invariant
            i <= l@.len(),
            all == texts(l@),
            scan_lines(all.subrange(0, i as int)) == (CoreScan {
                package: wide(package),
                core: wide(core),
                seen: wide_pairs(seen@),
            }),
        decreases l@.len() - i,
    {
        assert(all.subrange(0, i + 1).drop_last() =~= all.subrange(0, i as int));
        assert(all.subrange(0, i + 1).last() == l@[i as int]@);
        let line = l[i].as_str();
        if let Some((k, v)) = cut_at(line, ':') {
            let name = trimmed(k.as_str());
            if same(name.as_str(), "physical id") {
                package = read_u32(v.as_str());
            } else if same(name.as_str(), "core id") {
                core = read_u32(v.as_str());
            }
        }
        let t = trimmed(line);
        if t.as_str().unicode_len() == 0 {
            end_block(&mut seen, package, core);
            package = None;
            core = None;
        }
        i += 1;
    }
    assert(all.subrange(0, i as int) =~= all);
    end_block(&mut seen, package, core);
    assert(wide_pairs(seen@).len() == seen@.len());
    seen.len()
}

fn count_lines(l: &Vec<String>, p: &str) -> (r: usize)
    ensures
        r as nat == count_with(texts(l@), p@),
{
    let ghost all = texts(l@);
    let mut n: usize = 0;
    let mut i: usize = 0;
    while i < l.len()
        invariant
            n <= i <= l@.len(),
            all == texts(l@),
            n as nat == count_with(all.subrange(0, i as int), p@),
        decreases l@.len() - i,
    {
        assert(all.subrange(0, i + 1).drop_last() =~= all.subrange(0, i as int));
        assert(all.subrange(0, i + 1).last() == l@[i as int]@);
        if begins(l[i].as_str(), p) {
            n += 1;
        }
        i += 1;
    }
    assert(all.subrange(0, i as int) =~= all);
    n
}

// ------------------------------------------------------------ core capacities

/// The capacities that can be read.
pub open spec fn capacities(v: Seq<Seq<char>>) -> Seq<nat>
    decreases v.len(),
{
    if v.len() == 0 {
        Seq::empty()
    } else {
        let rest = capacities(v.drop_last());
        match unsigned(v.last(), u32::MAX as nat) {
            Some(c) => rest.push(c),
            None => rest,
        }
    }
}

pub open spec fn highest(v: Seq<nat>) -> nat
    decreases v.len(),
{
    if v.len() == 0 {
        0
    } else if v.last() > highest(v.drop_last()) {
        v.last()
    } else {
        highest(v.drop_last())
    }
}

/// How many of the values are `x`.
pub open spec fn how_many(v: Seq<nat>, x: nat) -> nat
    decreases v.len(),
{
    if v.len() == 0 {
        0
    } else {
        how_many(v.drop_last(), x) + (if v.last() == x { 1nat } else { 0 })
    }
}

/// Performance and efficiency cores: by the kernel's two lists, or by the
/// capacities where they differ, or all alike.
pub open spec fn core_kinds(
    fast: Option<Seq<char>>,
    slow: Option<Seq<char>>,
    caps: Seq<nat>,
    physical: nat,
) -> (nat, nat) {
    match (fast, slow) {
        (Some(p), Some(e)) => (list_total(split(p, ',')), list_total(split(e, ','))),
        _ => {
            let top = how_many(caps, highest(caps));
            if top < caps.len() {
                (top % 0x1_0000_0000, ((caps.len() - top) as nat) % 0x1_0000_0000)
            } else {
                (physical, 0)
            }
        },
    }
}

spec fn wide_caps(v: Seq<u32>) -> Seq<nat> {
    v.map_values(|c: u32| c as nat)
}

fn read_capacities(v: &Vec<String>) -> (r: Vec<u32>)
    ensures
        wide_caps(r@) == capacities(texts(v@)),
{
    let ghost all = texts(v@);
    let mut out: Vec<u32> = Vec::new();
    let mut i: usize = 0;
    assert(wide_caps(out@) =~= capacities(all.subrange(0, 0)));
    while i < v.len()
        invariant
            i <= v@.len(),
            all == texts(v@),
            wide_caps(out@) == capacities(all.subrange(0, i as int)),
        decreases v@.len() - i,
    {
        assert(all.subrange(0, i + 1).drop_last() =~= all.subrange(0, i as int));
        assert(all.subrange(0, i + 1).last() == v@[i as int]@);
        let ghost prev = out@;
        if let Some(c) = parse_unsigned(v[i].as_str(), u32::MAX as u64) {
            proof {
                lemma_unsigned_bound(v@[i as int]@, u32::MAX as nat);
            }
            out.push(c as u32);
            assert(wide_caps(out@) =~= wide_caps(prev).push(c as nat));
        }
        i += 1;
    }
    assert(all.subrange(0, i as int) =~= all);
    out
}

fn top_capacity(v: &Vec<u32>) -> (r: u32)
    ensures
        r as nat == highest(wide_caps(v@)),
{
    let ghost all = wide_caps(v@);
    let mut top: u32 = 0;
    let mut i: usize = 0;
    while i < v.len()
        invariant
            i <= v@.len(),
            all == wide_caps(v@),
            top as nat == highest(all.subrange(0, i as int)),
        decreases v@.len() - i,
    {
        assert(all.subrange(0, i + 1).drop_last() =~= all.subrange(0, i as int));
        assert(all.subrange(0, i + 1).last() == v@[i as int]);
        if v[i] > top {
            top = v[i];
        }
        i += 1;
    }
    assert(all.subrange(0, i as int) =~= all);
    top
}

fn count_of(v: &Vec<u32>, x: u32) -> (r: usize)
    ensures
        r as nat == how_many(wide_caps(v@), x as nat),
        r <= v@.len(),
{
    let ghost all = wide_caps(v@);
    let mut n: usize = 0;
    let mut i: usize = 0;
    while i < v.len()
        invariant
            n <= i <= v@.len(),
            all == wide_caps(v@),
            n as nat == how_many(all.subrange(0, i as int), x as nat),
        decreases v@.len() - i,
    {
        assert(all.subrange(0, i + 1).drop_last() =~= all.subrange(0, i as int));
        assert(all.subrange(0, i + 1).last() == v@[i as int]);
        if v[i] == x {
            n += 1;
        }
        i += 1;
    }
    assert(all.subrange(0, i as int) =~= all);
    n
}

// -------------------------------------------------------------------- caches

/// `s` without the letters K and k at its end.
pub open spec fn without_k(s: Seq<char>) -> Seq<char>
    decreases s.len(),
{
    if s.len() > 0 && (s.last() == 'K' || s.last() == 'k') {
        without_k(s.drop_last())
    } else {
        s
    }
}

/// The bytes of a cache whose size is given in KiB.
pub open spec fn cache_bytes(s: Seq<char>) -> Option<nat> {
    match unsigned(without_k(s), u64::MAX as nat) {
        Some(kb) => Some((kb * 1024) % 0x1_0000_0000_0000_0000),
        None => None,
    }
}

/// The largest of the caches, 8 MiB where none can be read.
pub open spec fn largest_cache(v: Seq<Seq<char>>) -> Option<nat>
    decreases v.len(),
{
    if v.len() == 0 {
        None
    } else {
        match (largest_cache(v.drop_last()), cache_bytes(v.last())) {
            (Some(a), Some(b)) => Some(if b >= a { b } else { a }),
            (Some(a), None) => Some(a),
            (None, b) => b,
        }
    }
}

fn cache_size(s: &str) -> (r: Option<u64>)
    ensures
        match r {
            Some(n) => cache_bytes(s@) == Some(n as nat),
            None => cache_bytes(s@) is None,
        },
{
    let v = chars_of(s);
    let mut to: usize = v.len();
    assert(v@.subrange(0, to as int) =~= v@);
    while to > 0 && (v[to - 1] == 'K' || v[to - 1] == 'k')
        invariant
            to <= v@.len(),
            without_k(v@.subrange(0, to as int)) == without_k(v@),
        decreases to,
    {
        assert(v@.subrange(0, to as int).drop_last() =~= v@.subrange(0, to - 1));
        assert(v@.subrange(0, to as int).last() == v@[to - 1]);
        to -= 1;
    }
    assert(to > 0 ==> v@.subrange(0, to as int).last() == v@[to - 1]);
    let number = string_of(&v, 0, to);
    match parse_unsigned(number.as_str(), u64::MAX) {
        Some(kb) => Some(kb.wrapping_mul(1024)),
        None => None,
    }
}

fn biggest_cache(sizes: &Vec<String>) -> (r: Option<u64>)
    ensures
        match r {
            Some(n) => largest_cache(texts(sizes@)) == Some(n as nat),
            None => largest_cache(texts(sizes@)) is None,
        },
{
    let ghost all = texts(sizes@);
    let mut best: Option<u64> = None;
    let mut i: usize = 0;
    while i < sizes.len()
        invariant
            i <= sizes@.len(),
            all == texts(sizes@),
            match best {
                Some(n) => largest_cache(all.subrange(0, i as int)) == Some(n as nat),
                None => largest_cache(all.subrange(0, i as int)) is None,
            },
        decreases sizes@.len() - i,
    {
        assert(all.subrange(0, i + 1).drop_last() =~= all.subrange(0, i as int));
        assert(all.subrange(0, i + 1).last() == sizes@[i as int]@);
        if let Some(b) = cache_size(sizes[i].as_str()) {
            best = match best {
                Some(a) => Some(if b >= a { b } else { a }),
                None => Some(b),
            };
        }
        i += 1;
    }
    assert(all.subrange(0, i as int) =~= all);
    best
}

// ------------------------------------------------------------------- on Linux

/// What Linux says of its processors, as the files hold it, white space at
/// their ends removed.
pub struct LinuxCpu {
    pub cpuinfo: String,
    /// The CPUs of the fast and the slow kind, where the kernel tells them
    /// apart.
    pub core_cpus: Option<String>,
    pub atom_cpus: Option<String>,
    /// The capacity of each logical CPU that states one.
    pub capacities: Vec<String>,
    /// The size of each cache level.
    pub cache_sizes: Vec<String>,
    pub cache_line: Option<String>,
}

/// The words of the line of ISA features.
pub open spec fn feature_words(l: Seq<Seq<char>>) -> Seq<Seq<char>> {
    match feature_line(l) {
        Some(line) => match cut(line, ':') {
            Some((k, v)) => words(v),
            None => Seq::empty(),
        },
        None => Seq::empty(),
    }
}

/// The first line that starts with either name of the features.
pub open spec fn feature_line(l: Seq<Seq<char>>) -> Option<Seq<char>>
    decreases l.len(),
{
    if l.len() == 0 {
        None
    } else {
        match feature_line(l.drop_last()) {
            Some(x) => Some(x),
            None => if starts_with(l.last(), "flags"@) || starts_with(l.last(), "Features"@) {
                Some(l.last())
            } else {
                None
            },
        }
    }
}

proof fn lemma_feature_line_stays(l: Seq<Seq<char>>, k: int)
    requires
        0 <= k <= l.len(),
        feature_line(l.subrange(0, k)) is Some,
    ensures
        feature_line(l) == feature_line(l.subrange(0, k)),
    decreases l.len() - k,
{
    if k < l.len() {
        assert(l.drop_last().subrange(0, k) =~= l.subrange(0, k));
        lemma_feature_line_stays(l.drop_last(), k);
    } else {
        assert(l.subrange(0, k) =~= l);
    }
}

fn features_of(l: &Vec<String>) -> (r: Vec<String>)
    ensures
        texts(r@) == feature_words(texts(l@)),
{
    let ghost all = texts(l@);
    let mut i: usize = 0;
    while i < l.len()
        invariant
            i <= l@.len(),
            all == texts(l@),
            feature_line(all.subrange(0, i as int)) is None,
        decreases l@.len() - i,
    {
        assert(all.subrange(0, i + 1).drop_last() =~= all.subrange(0, i as int));
        assert(all.subrange(0, i + 1).last() == l@[i as int]@);
        if begins(l[i].as_str(), "flags") || begins(l[i].as_str(), "Features") {
            proof {
                lemma_feature_line_stays(all, i + 1);
            }
            return match cut_at(l[i].as_str(), ':') {
                Some((k, v)) => words_of(v.as_str()),
                None => {
                    let none: Vec<String> = Vec::new();
                    assert(texts(none@) =~= Seq::<Seq<char>>::empty());
                    none
                },
            };
        }
        i += 1;
    }
    assert(all.subrange(0, i as int) =~= all);
    let none: Vec<String> = Vec::new();
    assert(texts(none@) =~= Seq::<Seq<char>>::empty());
    none
}

pub open spec fn opt(o: Option<String>) -> Option<Seq<char>> {
    match o {
        Some(s) => Some(s@),
        None => None,
    }
}

pub open spec fn logical_count(l: Seq<Seq<char>>) -> nat {
    count_with(l, "processor"@) % 0x1_0000_0000
}

pub open spec fn physical_count(l: Seq<Seq<char>>) -> nat {
    if distinct_cores(l).len() == 0 {
        logical_count(l)
    } else {
        distinct_cores(l).len() % 0x1_0000_0000
    }
}

fn low32(n: usize) -> (r: u32)
    ensures
        r as nat == n as nat % 0x1_0000_0000,
{
    (n as u64 % 0x1_0000_0000) as u32
}

/// The processor that Linux describes.
///
/// Physical cores are the distinct pairs of package and core; anything beyond
/// that is a sibling. Hybrid Intel lists its two kinds, ARM states capacities.
pub fn from_linux(f: &LinuxCpu) -> (r: Cpu)
    ensures
        ({
            let l = lines(f.cpuinfo@);
            let kinds = core_kinds(
                opt(f.core_cpus),
                opt(f.atom_cpus),
                capacities(texts(f.capacities@)),
                physical_count(l),
            );
            let w = feature_words(l);
            &&& r.brand@ == (match value_of(first_with(l, "model name"@)) {
                Some(b) => b,
                None => "unknown"@,
            })
            &&& r.logical as nat == logical_count(l)
            &&& r.physical as nat == physical_count(l)
            &&& r.p_cores as nat == kinds.0
            &&& r.e_cores as nat == kinds.1
            &&& r.smt == (r.logical > r.physical)
            &&& r.recommended_threads as nat == threads_for(kinds.0, kinds.1, physical_count(l))
            &&& r.llc_bytes as nat == (match largest_cache(texts(f.cache_sizes@)) {
                Some(n) => n,
                None => 8_388_608,
            })
            &&& r.cache_line as nat == (match f.cache_line {
                Some(s) => match unsigned(s@, u64::MAX as nat) {
                    Some(n) => n,
                    None => 64,
                },
                None => 64,
            })
            &&& r.features == (IsaFeatures {
                avx2: w.contains("avx2"@),
                avx512f: w.contains("avx512f"@),
                f16c: w.contains("f16c"@),
                neon_dotprod: w.contains("asimddp"@),
                neon_i8mm: w.contains("i8mm"@),
            })
            &&& r.raw@.len() == 0
        }),
{
    let l = lines_of(f.cpuinfo.as_str());
    let at: usize = find_line(&l, "model name");
    let brand = if at < l.len() {
        match cut_at(l[at].as_str(), ':') {
            Some((k, v)) => trimmed(v.as_str()),
            None => copy("unknown"),
        }
    } else {
        copy("unknown")
    };
    let logical: u32 = low32(count_lines(&l, "processor"));
    let cores: usize = count_cores(&l);
    let physical: u32 = if cores == 0 { logical } else { low32(cores) };
    let (p_cores, e_cores): (u32, u32) = match (&f.core_cpus, &f.atom_cpus) {
        (Some(p), Some(e)) => (cpulist_len(p.as_str()), cpulist_len(e.as_str())),
        _ => {
            let caps = read_capacities(&f.capacities);
            let top: usize = count_of(&caps, top_capacity(&caps));
            assert(wide_caps(caps@).len() == caps@.len());
            if top < caps.len() {
                (low32(top), low32(caps.len() - top))
            } else {
                (physical, 0)
            }
        },
    };
    let llc_bytes: u64 = match biggest_cache(&f.cache_sizes) {
        Some(n) => n,
        None => 8_388_608,
    };
    let cache_line: u64 = match &f.cache_line {
        Some(s) => match parse_unsigned(s.as_str(), u64::MAX) {
            Some(n) => n,
            None => 64,
        },
        None => 64,
    };
    let w = features_of(&l);
    let features = IsaFeatures {
        avx2: holds(&w, "avx2"),
        avx512f: holds(&w, "avx512f"),
        f16c: holds(&w, "f16c"),
        neon_dotprod: holds(&w, "asimddp"),
        neon_i8mm: holds(&w, "i8mm"),
    };
    let cpu = Cpu {
        brand,
        physical,
        logical,
        p_cores,
        e_cores,
        smt: false,
        llc_bytes,
        cache_line,
        features,
        recommended_threads: 0,
        raw: Vec::new(),
    };
    cpu.finish()
}

// ---------------------------------------------------------------------- macOS

/// What macOS says about its CPU, each where it could be read.
pub struct MacCpu {
    pub brand: Option<String>,
    pub physical: Option<u64>,
    pub logical: Option<u64>,
    /// More than one level means a mixed CPU, the fastest first.
    pub perf_levels: Option<u64>,
    pub level0: Option<u64>,
    pub level1: Option<u64>,
    pub l3: Option<u64>,
    pub l2: Option<u64>,
    pub cache_line: Option<u64>,
    pub features: IsaFeatures,
}

pub open spec fn count_or(n: Option<u64>, other: u64) -> u64 {
    match n {
        Some(x) => x,
        None => other,
    }
}

fn take_or(n: Option<u64>, other: u64) -> (r: u64)
    ensures
        r == count_or(n, other),
{
    match n {
        Some(x) => x,
        None => other,
    }
}

/// The lower half of a count.
pub open spec fn lower_half(n: u64) -> u32 {
    (n % 0x1_0000_0000) as u32
}

fn low(n: u64) -> (r: u32)
    ensures
        r == lower_half(n),
{
    (n % 0x1_0000_0000) as u32
}

/// The last-level cache: the third level if it is there, else the second;
/// 8 MiB where neither is known.
pub open spec fn mac_cache(l3: Option<u64>, l2: Option<u64>) -> u64 {
    if l3 matches Some(n) && n > 0 {
        l3->0
    } else {
        count_or(l2, 8_388_608)
    }
}

/// The CPU that macOS describes.
pub fn from_macos(f: MacCpu) -> (r: Cpu)
    ensures
        r.brand@ == (match f.brand {
            Some(b) => b@,
            None => "unknown"@,
        }),
        r.physical == lower_half(count_or(f.physical, 1)),
        r.logical == lower_half(count_or(f.logical, r.physical as u64)),
        count_or(f.perf_levels, 1) > 1 ==> r.p_cores == lower_half(count_or(f.level0, 0)) && r.e_cores == lower_half(
            count_or(f.level1, 0),
        ),
        count_or(f.perf_levels, 1) <= 1 ==> r.p_cores == r.physical && r.e_cores == 0,
        r.smt == (r.logical > r.physical),
        r.llc_bytes == mac_cache(f.l3, f.l2),
        r.cache_line == count_or(f.cache_line, 64),
        r.features == f.features,
        r.recommended_threads == threads_for(r.p_cores as nat, r.e_cores as nat, r.physical as nat),
        r.raw@.len() == 0,
{
    let physical: u32 = low(take_or(f.physical, 1));
    let logical: u32 = low(take_or(f.logical, physical as u64));
    let mixed = take_or(f.perf_levels, 1) > 1;
    let p_cores: u32 = if mixed { low(take_or(f.level0, 0)) } else { physical };
    let e_cores: u32 = if mixed { low(take_or(f.level1, 0)) } else { 0 };
    let llc_bytes: u64 = match f.l3 {
        Some(n) => if n > 0 {
            n
        } else {
            take_or(f.l2, 8_388_608)
        },
        None => take_or(f.l2, 8_388_608),
    };
    let cpu = Cpu {
        brand: match f.brand {
            Some(b) => b,
            None => copy("unknown"),
        },
        physical,
        logical,
        p_cores,
        e_cores,
        smt: false,
        llc_bytes,
        cache_line: take_or(f.cache_line, 64),
        features: f.features,
        recommended_threads: 0,
        raw: Vec::new(),
    };
    cpu.finish()
}

// -------------------------------------------------------------------- Windows

/// A core as Windows reports it.
#[derive(Debug, Clone, Copy, PartialEq, Eq, Structural)]
pub struct WinCore {
    /// Its logical processors.
    pub logical: u32,
    /// Higher is faster; zero is the slowest tier.
    pub efficiency_class: u8,
}

pub open spec fn logical_of(c: Seq<WinCore>) -> nat
    decreases c.len(),
{
    if c.len() == 0 {
        0
    } else {
        logical_of(c.drop_last()) + c.last().logical as nat
    }
}

pub open spec fn fast_cores(c: Seq<WinCore>) -> nat
    decreases c.len(),
{
    if c.len() == 0 {
        0
    } else {
        fast_cores(c.drop_last()) + (if c.last().efficiency_class > 0 {
            1nat
        } else {
            0
        })
    }
}

proof fn lemma_core_counts(c: Seq<WinCore>, n: int)
    requires
        0 <= n <= c.len(),
    ensures
        logical_of(c.subrange(0, n)) <= logical_of(c),
        fast_cores(c.subrange(0, n)) <= n,
    decreases c.len() + n,
{
    if n < c.len() {
        assert(c.drop_last().subrange(0, n) =~= c.subrange(0, n));
        lemma_core_counts(c.drop_last(), n);
    } else {
        assert(c.subrange(0, n) =~= c);
        if n > 0 {
            assert(c.drop_last().subrange(0, n - 1) =~= c.drop_last());
            lemma_core_counts(c.drop_last(), n - 1);
        }
    }
}

/// The CPU that Windows describes by its cores. A CPU of one kind reports the
/// slowest tier everywhere, which does not make its cores efficiency cores.
pub fn from_windows(cores: &Vec<WinCore>, brand: Option<String>) -> (r: Cpu)
    requires
        cores@.len() <= u32::MAX,
        logical_of(cores@) <= u32::MAX,
    ensures
        r.brand@ == (match brand {
            Some(b) => b@,
            None => "unknown"@,
        }),
        r.physical as nat == (if cores@.len() >= 1 { cores@.len() } else { 1 }),
        r.logical as nat == (if logical_of(cores@) >= 1 { logical_of(cores@) } else { 1 }),
        fast_cores(cores@) > 0 ==> r.p_cores == fast_cores(cores@) && r.e_cores == cores@.len() - fast_cores(cores@),
        fast_cores(cores@) == 0 ==> r.p_cores == cores@.len() && r.e_cores == 0,
        r.smt == (r.logical > r.physical),
        r.llc_bytes == 8_388_608,
        r.cache_line == 64,
        r.features == (IsaFeatures { avx2: false, avx512f: false, f16c: false, neon_dotprod: false, neon_i8mm: false }),
        r.recommended_threads == threads_for(r.p_cores as nat, r.e_cores as nat, r.physical as nat),
        r.raw@.len() == 0,
{
    let n: u32 = cores.len() as u32;
    let mut logical: u32 = 0;
    let mut fast: u32 = 0;
    let mut i: usize = 0;
    assert(cores@.subrange(0, 0) =~= Seq::<WinCore>::empty());
    while i < cores.len()
        invariant
            i <= cores@.len(),
            cores@.len() <= u32::MAX,
            logical_of(cores@) <= u32::MAX,
            logical as nat == logical_of(cores@.subrange(0, i as int)),
            fast as nat == fast_cores(cores@.subrange(0, i as int)),
            fast <= i,
        decreases cores@.len() - i,
    {
        assert(cores@.subrange(0, i + 1).drop_last() =~= cores@.subrange(0, i as int));
        proof {
            lemma_core_counts(cores@, i + 1);
        }
        logical = logical + cores[i].logical;
        if cores[i].efficiency_class > 0 {
            fast = fast + 1;
        }
        i += 1;
    }
    assert(cores@.subrange(0, i as int) =~= cores@);
    let cpu = Cpu {
        brand: match brand {
            Some(b) => b,
            None => copy("unknown"),
        },
        physical: if n >= 1 { n } else { 1 },
        logical: if logical >= 1 { logical } else { 1 },
        p_cores: if fast > 0 { fast } else { n },
        e_cores: if fast > 0 { n - fast } else { 0 },
        smt: false,
        llc_bytes: 8_388_608,
        cache_line: 64,
        features: IsaFeatures { avx2: false, avx512f: false, f16c: false, neon_dotprod: false, neon_i8mm: false },
        recommended_threads: 0,
        raw: Vec::new(),
    };
    cpu.finish()
}

} // verus!
