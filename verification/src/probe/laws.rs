//! What the probes conclude from what the system says.

use vstd::prelude::*;
use crate::chars::{cut, split, trim, unsigned, words};
use crate::fit::median::counted;
use crate::probe::cpu::{
    cache_bytes, close_block, core_kinds, fast_cores, highest, how_many, largest_cache, list_part, threads_for, CoreScan, WinCore,
};
use crate::probe::env::{ceiling_in, linux_virt, VirtView};
use crate::probe::gpu::{collapsed, lemma_twin_in_range, nvidia_line, twin, windows_line, GpuView};
use crate::probe::memory::{available_in, field_bytes, mac_available, meminfo_field, VmPages};
use crate::probe::storage::{
    byte_len, device_views, hazards_of, larger_of, lies_in, medium_by, medium_for, model_dirs, mount_line, mount_of, opt_texts, path_names,
    provider_of, rooted, BenchTarget, DeviceView, HazardView, Medium, MediumClues, Storage,
};

verus! {

// -------------------------------------------------------------------- storage

/// A path lies in a directory by whole names: those of the directory lead its
/// own, one by one, and a name that merely starts alike is another. Both start
/// at the root, or neither does.
pub proof fn a_path_lies_in_a_directory_by_whole_names(path: Seq<char>, dir: Seq<char>)
    ensures
        lies_in(path, dir) ==> path_names(dir).len() <= path_names(path).len() && forall|i: int|
            0 <= i < path_names(dir).len() ==> #[trigger] path_names(path)[i] == path_names(dir)[i],
        lies_in(path, dir) ==> rooted(path) == rooted(dir),
        rooted(path) == rooted(dir) && path_names(dir).len() <= path_names(path).len() && (forall|i: int|
            0 <= i < path_names(dir).len() ==> #[trigger] path_names(path)[i] == path_names(dir)[i]) ==> lies_in(path, dir),
        lies_in(path, path),
{
    let (a, b) = (path_names(path), path_names(dir));
    if b.len() <= a.len() {
        let h = a.subrange(0, b.len() as int);
        if lies_in(path, dir) {
            assert(h =~= b);
            assert forall|i: int| 0 <= i < b.len() implies #[trigger] a[i] == b[i] by {
                assert(h[i] == a[i]);
            }
        }
        if forall|i: int| 0 <= i < b.len() ==> #[trigger] a[i] == b[i] {
            assert(h =~= b);
        }
    }
    assert(a.subrange(0, a.len() as int) =~= a);
}

/// A directory that is named is looked at first, then the one a runtime was
/// told, and the home directory itself last of all.
pub proof fn what_is_named_is_looked_at_first(home: Seq<char>, named: Option<Seq<char>>, ollama: Option<Seq<char>>, windows: bool)
    ensures
        ({
            let d = model_dirs(home, named, ollama, windows);
            &&& named matches Some(p) ==> d[0].0 == p
            &&& named is None ==> (ollama matches Some(p) ==> d[0].0 == p)
            &&& named is Some ==> (ollama matches Some(p) ==> d[1].0 == p)
            &&& d.last().0 == home
            &&& d.len() >= 6
        }),
{
}

/// The mount point of a line of the mount table.
pub open spec fn point_of(line: Seq<char>) -> Seq<char> {
    (mount_line(line)->0).1
}

/// `k` is the first of the longest mount points above the path.
pub open spec fn is_nearest(path: Seq<char>, l: Seq<Seq<char>>, k: int) -> bool {
    &&& 0 <= k < l.len()
    &&& lies_in(path, point_of(l[k]))
    &&& forall|j: int| 0 <= j < l.len() && lies_in(path, point_of(#[trigger] l[j])) ==> byte_len(point_of(l[j])) <= byte_len(point_of(l[k]))
    &&& forall|j: int| 0 <= j < k && lies_in(path, point_of(#[trigger] l[j])) ==> byte_len(point_of(l[j])) < byte_len(point_of(l[k]))
}

/// A path lies on the mount whose point is the longest above it, the first of
/// several such. Where a line of the table cannot be read nothing is concluded.
pub proof fn a_path_lies_on_the_nearest_mount(path: Seq<char>, l: Seq<Seq<char>>)
    ensures
        mount_of(path, l) is None <==> exists|i: int| 0 <= i < l.len() && mount_line(#[trigger] l[i]) is None,
        match mount_of(path, l) {
            Some(Some((point, fs))) => exists|k: int| #[trigger]
                is_nearest(path, l, k) && point == point_of(l[k]) && fs == (mount_line(l[k])->0).2,
            Some(None) => forall|i: int| 0 <= i < l.len() ==> !lies_in(path, point_of(#[trigger] l[i])),
            None => true,
        },
    decreases l.len(),
{
    if l.len() > 0 {
        let r = l.drop_last();
        a_path_lies_on_the_nearest_mount(path, r);
        assert forall|i: int| 0 <= i < r.len() implies #[trigger] l[i] == r[i] by {}
        if mount_of(path, r) is None {
            let i = choose|i: int| 0 <= i < r.len() && mount_line(#[trigger] r[i]) is None;
            assert(mount_line(l[i]) is None);
        } else if mount_line(l.last()) is None {
            assert(mount_line(l[l.len() - 1]) is None);
        } else {
            assert forall|i: int| 0 <= i < l.len() implies mount_line(#[trigger] l[i]) is Some by {
                if i < r.len() {
                    assert(mount_line(r[i]) is Some);
                }
            }
            let n = l.len() - 1;
            match mount_of(path, r)->0 {
                Some((point, fs)) => {
                    let k = choose|k: int| #[trigger] is_nearest(path, r, k) && point == point_of(r[k]) && fs == (mount_line(r[k])->0).2;
                    if lies_in(path, point_of(l[n])) && byte_len(point_of(l[n])) > byte_len(point) {
                        assert(is_nearest(path, l, n)) by {
                            assert forall|j: int| 0 <= j < n && lies_in(path, point_of(#[trigger] l[j])) implies byte_len(point_of(l[j]))
                                < byte_len(point_of(l[n])) by {
                                assert(r[j] == l[j]);
                            }
                        }
                    } else {
                        assert(is_nearest(path, l, k)) by {
                            assert forall|j: int| 0 <= j < l.len() && lies_in(path, point_of(#[trigger] l[j])) implies byte_len(point_of(l[j]))
                                <= byte_len(point_of(l[k])) by {
                                if j < n {
                                    assert(r[j] == l[j]);
                                }
                            }
                            assert forall|j: int| 0 <= j < k && lies_in(path, point_of(#[trigger] l[j])) implies byte_len(point_of(l[j]))
                                < byte_len(point_of(l[k])) by {
                                assert(r[j] == l[j]);
                            }
                        }
                    }
                },
                None => {
                    assert forall|j: int| 0 <= j < n implies !lies_in(path, point_of(#[trigger] l[j])) by {
                        assert(r[j] == l[j]);
                    }
                    if lies_in(path, point_of(l[n])) {
                        assert(is_nearest(path, l, n));
                    }
                },
            }
        }
    }
}

proof fn lemma_no_device_is_a_network(devices: Seq<DeviceView>, answers: Seq<Option<Seq<char>>>)
    ensures
        medium_by(devices, answers) != Medium::Network,
    decreases devices.len(),
{
    if devices.len() > 0 {
        lemma_no_device_is_a_network(
            devices.subrange(1, devices.len() as int),
            if answers.len() > 0 { answers.subrange(1, answers.len() as int) } else { answers },
        );
    }
}

/// What comes over a network is told as such, and nothing else is, whatever
/// the devices say.
pub proof fn what_comes_over_a_network_is_told(fs: Seq<char>, local: bool, clues: MediumClues)
    ensures
        medium_for(fs, local, clues) == Medium::Network <==> !local || fs == "nfs"@ || fs == "nfs4"@ || fs == "cifs"@ || fs == "smb3"@ || fs
            == "remote"@ || fs == "afpfs"@,
{
    if let MediumClues::Linux(d, a) = clues {
        lemma_no_device_is_a_network(device_views(d@), opt_texts(a@));
    }
}

/// Where the block devices are asked, the first that is known decides, and
/// where none is, nothing is claimed.
pub proof fn the_first_known_device_decides(devices: Seq<DeviceView>, answers: Seq<Option<Seq<char>>>, k: int)
    requires
        devices.len() == answers.len(),
        0 <= k <= devices.len(),
        forall|i: int| 0 <= i < k ==> (#[trigger] devices[i]) is AskBlockDevice && answers[i] is None,
        k < devices.len() ==> devices[k] is Nvme || answers[k] is Some,
    ensures
        k == devices.len() ==> medium_by(devices, answers) == Medium::Unknown,
        k < devices.len() && devices[k] is Nvme ==> medium_by(devices, answers) == Medium::Nvme,
        k < devices.len() && !(devices[k] is Nvme) ==> medium_by(devices, answers) == (if trim(answers[k]->0) == "1"@ {
            Medium::Rotational
        } else {
            Medium::Ssd
        }),
    decreases devices.len(),
{
    if k > 0 {
        let (d, a) = (devices.subrange(1, devices.len() as int), answers.subrange(1, answers.len() as int));
        assert(devices[0] is AskBlockDevice && answers[0] is None);
        assert forall|i: int| 0 <= i < k - 1 implies (#[trigger] d[i]) is AskBlockDevice && a[i] is None by {
            assert(d[i] == devices[i + 1] && a[i] == answers[i + 1]);
        }
        if k < devices.len() {
            assert(d[k - 1] == devices[k] && a[k - 1] == answers[k]);
        }
        the_first_known_device_decides(d, a, k - 1);
    }
}

/// A volume is told to be short of space exactly below 8 GiB, to be slow
/// exactly where its disk turns, to be remote exactly where it is, and to be
/// synced exactly where a service's name is on its path; nothing else is told.
pub proof fn every_hazard_is_told(path: Seq<char>, medium: Medium, fs: Seq<char>, free: nat)
    ensures
        ({
            let h = hazards_of(path, medium, fs, free);
            &&& h.contains(HazardView::LowSpace(free)) <==> free < 8_589_934_592
            &&& h.contains(HazardView::Rotational) <==> medium == Medium::Rotational
            &&& h.contains(HazardView::NetworkMount(fs)) <==> medium == Medium::Network
            &&& provider_of(path) matches Some(p) ==> h.contains(HazardView::CloudSync(p))
            &&& provider_of(path) is None ==> forall|i: int| 0 <= i < h.len() ==> !(#[trigger] h[i] is CloudSync)
            &&& forall|i: int, j: int| 0 <= i < j < h.len() ==> #[trigger] h[i] != #[trigger] h[j]
        }),
{
    let h = hazards_of(path, medium, fs, free);
    let a: int = if provider_of(path) is Some { 1 } else { 0 };
    let b: int = if medium == Medium::Network || medium == Medium::Rotational { 1 } else { 0 };
    if provider_of(path) is Some {
        assert(h[0] == HazardView::CloudSync(provider_of(path)->0));
    }
    if medium == Medium::Network {
        assert(h[a] == HazardView::NetworkMount(fs));
    }
    if medium == Medium::Rotational {
        assert(h[a] == HazardView::Rotational);
    }
    if free < 8_589_934_592 {
        assert(h[a + b] == HazardView::LowSpace(free));
    }
}

/// Of two files the larger is kept, the earlier of two alike, and none is
/// dropped for nothing.
pub proof fn the_larger_file_is_kept(best: Option<(Seq<char>, nat)>, next: Option<(Seq<char>, nat)>)
    ensures
        ({
            let r = larger_of(best, next);
            &&& r == best || r == next
            &&& best matches Some(b) ==> (r matches Some(x) && x.1 >= b.1)
            &&& next matches Some(n) ==> (r matches Some(x) && x.1 >= n.1)
            &&& r != best ==> (best matches Some(b) ==> (next matches Some(n) && n.1 > b.1))
        }),
{
}

/// A weight file is read where there is one, however large another file is.
pub proof fn a_weight_file_is_read_first(s: Storage, target: BenchTarget)
    requires
        s.reads(target),
    ensures
        target.weight matches Some(w) ==> s.bench_is_weight && (s.bench_file matches Some(f) && f@ == w.path@),
        target.weight is None ==> !s.bench_is_weight && (s.bench_file is Some <==> target.any is Some),
        target.weight is None ==> (target.any matches Some(c) ==> (s.bench_file matches Some(f) && f@ == c.path@)),
{
}

// --------------------------------------------------------------------- memory

/// The first line of that name, with a colon on every line before it.
pub open spec fn stands_at(l: Seq<Seq<char>>, key: Seq<char>, k: int) -> bool {
    &&& 0 <= k < l.len()
    &&& cut(l[k], ':') matches Some(p) && p.0 == key
    &&& forall|j: int| 0 <= j < k ==> (cut(#[trigger] l[j], ':') matches Some(p) && p.0 != key)
}

proof fn lemma_field(l: Seq<Seq<char>>, key: Seq<char>, k: int)
    requires
        stands_at(l, key, k),
    ensures
        meminfo_field(l, key) == field_bytes((cut(l[k], ':')->0).1),
    decreases l.len(),
{
    if k > 0 {
        let r = l.subrange(1, l.len() as int);
        assert(cut(l[0], ':') is Some);
        assert(r[k - 1] == l[k]);
        assert forall|j: int| 0 <= j < k - 1 implies (cut(#[trigger] r[j], ':') matches Some(p) && p.0 != key) by {
            assert(r[j] == l[j + 1]);
        }
        lemma_field(r, key, k - 1);
    }
}

/// A field is so many times 1024 bytes as its first word says.
pub proof fn fields_are_in_kib(l: Seq<Seq<char>>, key: Seq<char>, k: int, kib: nat)
    requires
        stands_at(l, key, k),
        words((cut(l[k], ':')->0).1).len() > 0,
        unsigned(words((cut(l[k], ':')->0).1)[0], u64::MAX as nat) == Some(kib),
        kib * 1024 <= u64::MAX,
    ensures
        meminfo_field(l, key) == Some(kib * 1024),
{
    lemma_field(l, key, k);
    assert((kib * 1024) % 0x1_0000_0000_0000_0000 == kib * 1024) by (nonlinear_arith)
        requires
            kib * 1024 <= 0xFFFF_FFFF_FFFF_FFFF,
    ;
}

/// The kernel's own figure is taken where it has one, however much is free or
/// cached; else what is free and what is cached together.
pub proof fn the_kernel_s_own_figure_counts_first(l: Seq<Seq<char>>, total: nat)
    ensures
        meminfo_field(l, "MemAvailable"@) matches Some(n) ==> available_in(l, total) == n,
        meminfo_field(l, "MemAvailable"@) is None ==> (meminfo_field(l, "MemFree"@) matches Some(a) ==> (meminfo_field(l, "Cached"@) matches Some(b)
            ==> (a + b <= u64::MAX ==> available_in(l, total) == a + b))),
        meminfo_field(l, "MemAvailable"@) is None && meminfo_field(l, "MemFree"@) is None && total * 7 <= u64::MAX ==> 10 * available_in(l, total)
            <= 7 * total < 10 * available_in(l, total) + 10,
{
    assert((total * 7) % 0x1_0000_0000_0000_0000 == total * 7 || total * 7 > 0xFFFF_FFFF_FFFF_FFFF) by (nonlinear_arith);
}

/// On macOS what is owned, pinned or compressed is in use, page by page, but
/// for what may be discarded; all else can be used.
pub proof fn only_what_cannot_be_discarded_is_in_use(total: nat, page_size: nat, p: VmPages, held: nat)
    requires
        p.purgeable <= p.internal,
        held == p.internal - p.purgeable + p.wired + p.compressor,
        held * page_size <= total,
        total <= u64::MAX,
    ensures
        mac_available(total, page_size, Some(p)) + held * page_size == total,
{
    let used = held * page_size;
    assert(used % 0x1_0000_0000_0000_0000 == used) by (nonlinear_arith)
        requires
            0 <= used <= 0xFFFF_FFFF_FFFF_FFFF,
    ;
}

// ------------------------------------------------------------------ processor

/// A mixed processor runs on its performance cores, any other on all its
/// physical cores, and never on none.
pub proof fn inference_avoids_the_efficiency_cores(p_cores: nat, e_cores: nat, physical: nat)
    ensures
        p_cores > 0 && e_cores > 0 ==> threads_for(p_cores, e_cores, physical) == p_cores,
        (p_cores == 0 || e_cores == 0) && physical > 0 ==> threads_for(p_cores, e_cores, physical) == physical,
        threads_for(p_cores, e_cores, physical) > 0,
{
}

proof fn lemma_highest(v: Seq<nat>)
    ensures
        forall|i: int| 0 <= i < v.len() ==> #[trigger] v[i] <= highest(v),
        v.len() > 0 ==> v.contains(highest(v)) || highest(v) == 0,
    decreases v.len(),
{
    if v.len() > 0 {
        let r = v.drop_last();
        lemma_highest(r);
        assert forall|i: int| 0 <= i < v.len() implies #[trigger] v[i] <= highest(v) by {
            if i < r.len() {
                assert(r[i] == v[i]);
            }
        }
        if v.last() > highest(r) {
            assert(v[v.len() - 1] == highest(v));
        } else if r.contains(highest(r)) {
            let i = choose|i: int| 0 <= i < r.len() && r[i] == highest(r);
            assert(v[i] == highest(v));
        } else if v.last() == highest(v) {
            assert(v[v.len() - 1] == highest(v));
        }
    }
}

proof fn lemma_how_many(v: Seq<nat>, n: nat, x: nat)
    requires
        n <= v.len(),
    ensures
        how_many(v.subrange(0, n as int), x) == counted(n, |i: int| v[i] == x),
        how_many(v.subrange(0, n as int), x) <= n,
    decreases n,
{
    if n > 0 {
        lemma_how_many(v, (n - 1) as nat, x);
        assert(v.subrange(0, n as int).drop_last() =~= v.subrange(0, n - 1));
    }
}

/// Where the kernel lists no kinds of core, those of the highest capacity are
/// the performance cores and all others are not; where all are alike there are
/// no others.
pub proof fn the_fastest_cores_are_the_performance_cores(fast: Option<Seq<char>>, slow: Option<Seq<char>>, caps: Seq<nat>, physical: nat, top: nat)
    requires
        fast is None || slow is None,
        caps.contains(top),
        forall|i: int| 0 <= i < caps.len() ==> #[trigger] caps[i] <= top,
        caps.len() < 0x1_0000_0000,
    ensures
        ({
            let (p, e) = core_kinds(fast, slow, caps, physical);
            let most = counted(caps.len(), |i: int| caps[i] == top);
            if most < caps.len() {
                p == most && p + e == caps.len()
            } else {
                p == physical && e == 0
            }
        }),
{
    lemma_highest(caps);
    let k = choose|k: int| 0 <= k < caps.len() && caps[k] == top;
    assert(caps[k] <= highest(caps));
    if caps.contains(highest(caps)) {
        let j = choose|j: int| 0 <= j < caps.len() && caps[j] == highest(caps);
        assert(caps[j] <= top);
    }
    assert(highest(caps) == top);
    lemma_how_many(caps, caps.len(), top);
    assert(caps.subrange(0, caps.len() as int) =~= caps);
}

/// A range of a kernel's list covers both its ends.
pub proof fn a_range_covers_both_its_ends(part: Seq<char>, a: nat, b: nat)
    requires
        cut(part, '-') is Some,
        unsigned(trim((cut(part, '-')->0).0), u32::MAX as nat) == Some(a),
        unsigned(trim((cut(part, '-')->0).1), u32::MAX as nat) == Some(b),
        a <= b,
        b - a < u32::MAX,
    ensures
        list_part(part) == b - a + 1,
{
}

/// A block that names its package and its core adds that core to those that
/// were seen, once, and loses none.
pub proof fn no_core_is_lost(s: CoreScan, p: nat, c: nat)
    requires
        s.package == Some(p),
        s.core == Some(c),
    ensures
        close_block(s).seen.contains((p, c)),
        forall|x: (nat, nat)| s.seen.contains(x) ==> #[trigger] close_block(s).seen.contains(x),
        s.seen.contains((p, c)) ==> close_block(s).seen.len() == s.seen.len(),
        !s.seen.contains((p, c)) ==> close_block(s).seen.len() == s.seen.len() + 1,
{
    let r = close_block(s).seen;
    if !s.seen.contains((p, c)) {
        assert(r[s.seen.len() as int] == (p, c));
    }
    assert forall|x: (nat, nat)| s.seen.contains(x) implies #[trigger] r.contains(x) by {
        let i = choose|i: int| 0 <= i < s.seen.len() && s.seen[i] == x;
        assert(r[i] == x);
    }
}

/// The cache that is told is the largest: none that can be read is larger.
pub proof fn the_largest_cache_is_told(v: Seq<Seq<char>>)
    ensures
        match largest_cache(v) {
            Some(n) => (forall|i: int| 0 <= i < v.len() ==> (cache_bytes(#[trigger] v[i]) matches Some(c) ==> c <= n)) && exists|i: int|
                0 <= i < v.len() && cache_bytes(#[trigger] v[i]) == Some(n),
            None => forall|i: int| 0 <= i < v.len() ==> cache_bytes(#[trigger] v[i]) is None,
        },
    decreases v.len(),
{
    if v.len() > 0 {
        let r = v.drop_last();
        the_largest_cache_is_told(r);
        assert forall|i: int| 0 <= i < r.len() implies #[trigger] v[i] == r[i] by {}
        assert(v[v.len() - 1] == v.last());
        if let Some(n) = largest_cache(r) {
            let i = choose|i: int| 0 <= i < r.len() && cache_bytes(#[trigger] r[i]) == Some(n);
            assert(cache_bytes(v[i]) == Some(n));
            assert forall|i: int| 0 <= i < r.len() implies (cache_bytes(#[trigger] v[i]) matches Some(c) ==> c <= n) by {
                assert(v[i] == r[i]);
            }
        } else {
            assert forall|i: int| 0 <= i < r.len() implies cache_bytes(#[trigger] v[i]) is None by {
                assert(v[i] == r[i]);
            }
        }
    }
}

/// On Windows the cores above the slowest tier are the fast ones.
pub proof fn cores_above_the_slowest_tier_are_fast(c: Seq<WinCore>, n: nat)
    requires
        n <= c.len(),
    ensures
        fast_cores(c.subrange(0, n as int)) == counted(n, |i: int| c[i].efficiency_class > 0),
    decreases n,
{
    if n > 0 {
        cores_above_the_slowest_tier_are_fast(c, (n - 1) as nat);
        assert(c.subrange(0, n as int).drop_last() =~= c.subrange(0, n - 1));
    }
}

// ---------------------------------------------------------------- environment

/// A limit of the second version counts before one of the first. One of the
/// first that is beyond any machine, from 2 to the 62 on, is none.
pub proof fn a_limit_counts_unless_it_is_beyond_any_machine(v2: Option<Seq<char>>, v1: Option<Seq<char>>, a: nat)
    ensures
        v2 matches Some(t) ==> (unsigned(trim(t), u64::MAX as nat) == Some(a) ==> ceiling_in(v2, v1) == Some(a)),
        v2 is None ==> (v1 matches Some(t) ==> (unsigned(trim(t), u64::MAX as nat) == Some(a) ==> (if a < 4_611_686_018_427_387_904 {
            ceiling_in(v2, v1) == Some(a)
        } else {
            ceiling_in(v2, v1) is None
        }))),
        v2 is None && v1 is None ==> ceiling_in(v2, v1) is None,
{
}

/// A container is told as one unless it runs in WSL, whatever its processor
/// says; a guest's flag makes a hypervisor even where the vendor is unknown.
pub proof fn the_innermost_environment_is_told(version: Seq<char>, docker: bool, flagged: bool, vendor: Option<Seq<char>>)
    ensures
        crate::chars::contains(version, "microsoft"@) || crate::chars::contains(version, "wsl"@) <==> linux_virt(
            version,
            docker,
            flagged,
            vendor,
        ) == Some(VirtView::Wsl2),
        docker && !crate::chars::contains(version, "microsoft"@) && !crate::chars::contains(version, "wsl"@) <==> linux_virt(
            version,
            docker,
            flagged,
            vendor,
        ) == Some(VirtView::Container),
        flagged ==> linux_virt(version, docker, flagged, vendor) is Some,
        !docker && !flagged && vendor is None && linux_virt(version, docker, flagged, vendor) is Some ==> linux_virt(
            version,
            docker,
            flagged,
            vendor,
        ) == Some(VirtView::Wsl2),
{
}

// --------------------------------------------------------------------- adapters

/// A card that `nvidia-smi` lists has so many MiB as the line starts with. Where
/// Windows knows two figures of an adapter the larger counts.
pub proof fn listed_memory_is_taken_over(line: Seq<char>, g: GpuView, mib: nat, a: nat, b: nat)
    requires
        mib * 1_048_576 <= u64::MAX,
    ensures
        nvidia_line(line) == Some(g) && !g.integrated && unsigned(trim(split(trim(line), ',')[0]), u64::MAX as nat) == Some(mib) ==> g.vram_bytes
            == mib * 1_048_576,
        windows_line(line) == Some(g) && !g.integrated && split(trim(line), '|').len() > 2 && unsigned(
            trim(split(trim(line), '|')[1]),
            u64::MAX as nat,
        ) == Some(a) && unsigned(trim(split(trim(line), '|')[2]), u64::MAX as nat) == Some(b) ==> g.vram_bytes >= a && g.vram_bytes >= b && (
        g.vram_bytes == a || g.vram_bytes == b),
        nvidia_line(line) == Some(g) || windows_line(line) == Some(g) ==> g.count == 1 && (g.integrated ==> g.vram_bytes == 0),
{
    let f = split(trim(line), ',');
    assert(f.len() > 0);
    assert((mib * 1_048_576) % 0x1_0000_0000_0000_0000 == mib * 1_048_576);
}

/// An adapter's kind: cards of one name and one size are alike.
pub open spec fn alike(a: GpuView, b: GpuView) -> bool {
    a.name == b.name && a.vram_bytes == b.vram_bytes
}

proof fn lemma_no_twin(v: Seq<GpuView>, g: GpuView)
    requires
        twin(v, g) is None,
    ensures
        forall|i: int| 0 <= i < v.len() ==> !alike(#[trigger] v[i], g),
    decreases v.len(),
{
    if v.len() > 0 {
        lemma_no_twin(v.drop_last(), g);
        assert forall|i: int| 0 <= i < v.len() implies !alike(#[trigger] v[i], g) by {
            if i < v.len() - 1 {
                assert(v.drop_last()[i] == v[i]);
            }
        }
    }
}

/// Each kind of card has one entry, which counts the cards of its kind and
/// keeps their size: several are never summed into a larger one.
pub proof fn an_entry_counts_the_cards_of_its_kind(v: Seq<GpuView>, k: int)
    requires
        forall|i: int| 0 <= i < v.len() ==> (#[trigger] v[i]).count == 1,
        0 <= k < collapsed(v).len(),
    ensures
        collapsed(v)[k].count == counted(v.len(), |i: int| alike(v[i], collapsed(v)[k])),
        forall|j: int| 0 <= j < collapsed(v).len() && j != k ==> !alike(#[trigger] collapsed(v)[j], collapsed(v)[k]),
        collapsed(v)[k].count >= 1,
    decreases v.len(),
{
    if v.len() > 0 {
        let u = v.drop_last();
        let (r, w) = (collapsed(u), collapsed(v));
        let g = v.last();
        let n = u.len();
        assert forall|i: int| 0 <= i < u.len() implies (#[trigger] u[i]).count == 1 by {
            assert(u[i] == v[i]);
        }
        lemma_twin_in_range(r, g);
        assert forall|a: int| 0 <= a < r.len() implies #[trigger] distinct_from_others(r, a) by {
            an_entry_counts_the_cards_of_its_kind(u, a);
        }
        if k < r.len() {
            an_entry_counts_the_cards_of_its_kind(u, k);
        }
        let (a, b) = (|i: int| alike(u[i], w[k]), |i: int| alike(v[i], w[k]));
        crate::fit::median::lemma_counted_same(n, a, b);
        match twin(r, g) {
            Some(t) => {
                assert(w[k].name == r[k].name && w[k].vram_bytes == r[k].vram_bytes);
                crate::fit::median::lemma_counted_same(n, a, |i: int| alike(u[i], r[k]));
                assert(distinct_from_others(r, t));
                assert(b(n as int) <==> k == t);
                assert forall|j: int| 0 <= j < w.len() && j != k implies !alike(#[trigger] w[j], w[k]) by {
                    assert(distinct_from_others(r, k));
                    assert(!alike(r[j], r[k]));
                }
            },
            None => {
                lemma_no_twin(r, g);
                if k < r.len() {
                    assert(w[k] == r[k]);
                    assert(!alike(r[k], g));
                    assert(distinct_from_others(r, k));
                    assert forall|j: int| 0 <= j < w.len() && j != k implies !alike(#[trigger] w[j], w[k]) by {
                        if j < r.len() {
                            assert(!alike(r[j], r[k]));
                        }
                    }
                } else {
                    assert(w[k] == g);
                    lemma_none_alike(u, g);
                    assert forall|j: int| 0 <= j < w.len() && j != k implies !alike(#[trigger] w[j], w[k]) by {
                        assert(w[j] == r[j]);
                    }
                }
            },
        }
    }
}

spec fn distinct_from_others(r: Seq<GpuView>, k: int) -> bool {
    forall|j: int| 0 <= j < r.len() && j != k ==> !alike(#[trigger] r[j], r[k])
}

/// A card that no entry is like was not there.
proof fn lemma_none_alike(v: Seq<GpuView>, g: GpuView)
    requires
        forall|i: int| 0 <= i < collapsed(v).len() ==> !alike(#[trigger] collapsed(v)[i], g),
    ensures
        counted(v.len(), |i: int| alike(v[i], g)) == 0,
    decreases v.len(),
{
    if v.len() > 0 {
        let u = v.drop_last();
        let (r, w) = (collapsed(u), collapsed(v));
        lemma_twin_in_range(r, v.last());
        assert forall|i: int| 0 <= i < r.len() implies !alike(#[trigger] r[i], g) by {
            assert(!alike(w[i], g));
        }
        lemma_none_alike(u, g);
        crate::fit::median::lemma_counted_same(u.len(), |i: int| alike(u[i], g), |i: int| alike(v[i], g));
        match twin(r, v.last()) {
            Some(t) => {
                assert(!alike(r[t], g));
            },
            None => {
                assert(w[r.len() as int] == v.last());
            },
        }
    }
}

} // verus!
