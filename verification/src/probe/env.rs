//! Execution environment: bare metal, a virtual machine, or a container?
//!
//! Virtualised environments lie about memory: WSL2 reports half of the host's,
//! and a container has a ceiling that `/proc/meminfo` never mentions. Both give
//! a budget that is silently wrong, so they are detected and named.

use vstd::prelude::*;
use crate::chars::{
    concat3, contains, copy, holds, lines, lines_of, lowercase, mentions, parse_unsigned, starts_with, texts, to_lowercase, trim,
    trim_start, trimmed, unsigned, words, words_of,
};
use crate::double::{fixed_decimal, fixed_text, nearest, nearest_shifted, pow2, round_to_double, rounded};
use crate::fit::opt_text;

verus! {

pub enum Virt {
    /// Windows Subsystem for Linux v2: a real VM with a memory cap.
    Wsl2,
    /// Any OCI-style container.
    Container,
    /// Some hypervisor; the string is the vendor where it can be named.
    Hypervisor(String),
}

pub struct Env {
    pub os: String,
    pub arch: String,
    pub virt: Option<Virt>,
    /// A cgroup or VM ceiling below physical RAM. When present this is the
    /// real limit.
    pub memory_ceiling: Option<u64>,
    /// Advice when the environment will distort results.
    pub warning: Option<String>,
}

/// What a [`Virt`] says.
pub enum VirtView {
    Wsl2,
    Container,
    Hypervisor(Seq<char>),
}

impl View for Virt {
    type V = VirtView;

    open spec fn view(&self) -> VirtView {
        match self {
            Virt::Wsl2 => VirtView::Wsl2,
            Virt::Container => VirtView::Container,
            Virt::Hypervisor(s) => VirtView::Hypervisor(s@),
        }
    }
}

pub open spec fn virt_view(v: Option<Virt>) -> Option<VirtView> {
    match v {
        Some(x) => Some(x@),
        None => None,
    }
}

pub open spec fn virt_tag_text(v: Option<VirtView>) -> Seq<char> {
    match v {
        None => "none"@,
        Some(VirtView::Wsl2) => "wsl2"@,
        Some(VirtView::Container) => "container"@,
        Some(VirtView::Hypervisor(_)) => "hypervisor"@,
    }
}

impl Env {
    /// `none`, `wsl2`, `container` or `hypervisor`.
    ///
    /// A fixed vocabulary rather than the vendor string: every consumer only
    /// ever asks whether this was bare metal.
    pub fn virt_tag(&self) -> (r: &'static str)
        ensures
            r@ == virt_tag_text(virt_view(self.virt)),
    {
        match &self.virt {
            None => "none",
            Some(Virt::Wsl2) => "wsl2",
            Some(Virt::Container) => "container",
            Some(Virt::Hypervisor(_)) => "hypervisor",
        }
    }
}

/// A line of `/proc/cpuinfo` that lists the flag of a hypervisor.
pub open spec fn flags_hypervisor(line: Seq<char>) -> bool {
    starts_with(trim_start(line), "flags"@) && words(line).contains("hypervisor"@)
}

pub open spec fn any_hypervisor(l: Seq<Seq<char>>) -> bool {
    exists|i: int| 0 <= i < l.len() && flags_hypervisor(#[trigger] l[i])
}

fn starts_with_flags(line: &str) -> (r: bool)
    ensures
        r == starts_with(trim_start(line@), "flags"@),
{
    let v = crate::chars::chars_of(line);
    let p = crate::chars::chars_of("flags");
    let mut from: usize = 0;
    assert(v@.subrange(0, v@.len() as int) =~= v@);
    while from < v.len() && crate::chars::space(v[from])
        invariant
            from <= v@.len(),
            v@ == line@,
            trim_start(v@.subrange(from as int, v@.len() as int)) == trim_start(v@),
        decreases v@.len() - from,
    {
        let ghost cur = v@.subrange(from as int, v@.len() as int);
        assert(cur.subrange(1, cur.len() as int) =~= v@.subrange(from + 1, v@.len() as int));
        assert(cur[0] == v@[from as int]);
        from += 1;
    }
    let ghost cur = v@.subrange(from as int, v@.len() as int);
    assert(cur.len() > 0 ==> cur[0] == v@[from as int]);
    let r = crate::chars::at(&v, &p, from);
    proof {
        if from + p@.len() <= v@.len() {
            assert(cur.subrange(0, p@.len() as int) =~= v@.subrange(from as int, from + p@.len()));
        }
    }
    r
}

/// Does `/proc/cpuinfo` say the kernel is running under a hypervisor?
///
/// Every mainstream x86 hypervisor sets the flag and bare metal never does, so
/// this is the kernel's own answer rather than a vendor string that happens to
/// be known. ARM has no such flag.
pub fn cpuinfo_reports_hypervisor(cpuinfo: &str) -> (r: bool)
    ensures
        r == any_hypervisor(lines(cpuinfo@)),
{
    let l = lines_of(cpuinfo);
    let ghost all = texts(l@);
    let mut i: usize = 0;
    while i < l.len()
        invariant
            i <= l@.len(),
            all == texts(l@),
            all == lines(cpuinfo@),
            forall|j: int| 0 <= j < i ==> !flags_hypervisor(#[trigger] all[j]),
        decreases l@.len() - i,
    {
        assert(all[i as int] == l@[i as int]@);
        if starts_with_flags(l[i].as_str()) {
            let w = words_of(l[i].as_str());
            if holds(&w, "hypervisor") {
                assert(flags_hypervisor(all[i as int]));
                return true;
            }
        }
        i += 1;
    }
    false
}

/// What Linux says of its environment, as far as the files could be read.
pub struct LinuxEnv {
    pub cgroup_v2: Option<String>,
    pub cgroup_v1: Option<String>,
    pub version: Option<String>,
    pub dockerenv: bool,
    pub cpuinfo: Option<String>,
    pub sys_vendor: Option<String>,
}

/// The memory ceiling: cgroup v2 first, then v1, which signals "unlimited"
/// with a huge number.
pub open spec fn ceiling_in(v2: Option<Seq<char>>, v1: Option<Seq<char>>) -> Option<nat> {
    match limit_in(v2) {
        Some(n) => Some(n),
        None => match limit_in(v1) {
            Some(n) => if n < 0x4000_0000_0000_0000 {
                Some(n)
            } else {
                None
            },
            None => None,
        },
    }
}

pub open spec fn limit_in(t: Option<Seq<char>>) -> Option<nat> {
    match t {
        Some(s) => unsigned(trim(s), u64::MAX as nat),
        None => None,
    }
}

/// A DMI vendor that is a hypervisor's.
pub open spec fn is_vm_vendor(v: Seq<char>) -> bool {
    contains(v, "QEMU"@) || contains(v, "VMware"@) || contains(v, "Xen"@) || contains(v, "innotek GmbH"@) || contains(
        v,
        "Microsoft Corporation"@,
    )
}

/// The environment by what Linux says. `version` is in lower case.
pub open spec fn linux_virt(
    version: Seq<char>,
    dockerenv: bool,
    hypervisor: bool,
    vendor: Option<Seq<char>>,
) -> Option<VirtView> {
    if contains(version, "microsoft"@) || contains(version, "wsl"@) {
        Some(VirtView::Wsl2)
    } else if dockerenv {
        Some(VirtView::Container)
    } else if hypervisor {
        Some(
            VirtView::Hypervisor(
                match vendor {
                    Some(v) => trim(v),
                    None => "unknown"@,
                },
            ),
        )
    } else {
        match vendor {
            Some(v) => if is_vm_vendor(trim(v)) {
                Some(VirtView::Hypervisor(trim(v)))
            } else {
                None
            },
            None => None,
        }
    }
}

pub open spec fn text_or_empty(o: Option<String>) -> Seq<char> {
    match o {
        Some(s) => s@,
        None => Seq::empty(),
    }
}

fn limit(t: &Option<String>) -> (r: Option<u64>)
    ensures
        match r {
            Some(n) => limit_in(opt_text(*t)) == Some(n as nat),
            None => limit_in(opt_text(*t)) is None,
        },
{
    match t {
        Some(s) => {
            let x = trimmed(s.as_str());
            parse_unsigned(x.as_str(), u64::MAX)
        },
        None => None,
    }
}

/// The environment for a kernel version in lower case.
pub fn linux_virt_of(version: &str, dockerenv: bool, hypervisor: bool, vendor: Option<&str>) -> (r: Option<Virt>)
    ensures
        virt_view(r) == linux_virt(
            version@,
            dockerenv,
            hypervisor,
            match vendor {
                Some(v) => Some(v@),
                None => None,
            },
        ),
{
    if mentions(version, "microsoft") || mentions(version, "wsl") {
        return Some(Virt::Wsl2);
    }
    if dockerenv {
        return Some(Virt::Container);
    }
    match vendor {
        Some(v) => {
            let name = trimmed(v);
            let n = name.as_str();
            if hypervisor || mentions(n, "QEMU") || mentions(n, "VMware") || mentions(n, "Xen") || mentions(n, "innotek GmbH") || mentions(
                n,
                "Microsoft Corporation",
            ) {
                Some(Virt::Hypervisor(name))
            } else {
                None
            }
        },
        None => if hypervisor {
            Some(Virt::Hypervisor(copy("unknown")))
        } else {
            None
        },
    }
}

/// What Linux's files say of the environment and of the memory ceiling.
pub fn detect(f: &LinuxEnv) -> (r: (Option<Virt>, Option<u64>))
    ensures
        virt_view(r.0) == linux_virt(
            lowercase(text_or_empty(f.version)),
            f.dockerenv,
            f.cpuinfo matches Some(c) && any_hypervisor(lines(c@)),
            opt_text(f.sys_vendor),
        ),
        match r.1 {
            Some(n) => ceiling_in(opt_text(f.cgroup_v2), opt_text(f.cgroup_v1)) == Some(n as nat),
            None => ceiling_in(opt_text(f.cgroup_v2), opt_text(f.cgroup_v1)) is None,
        },
{
    let ceiling = match limit(&f.cgroup_v2) {
        Some(n) => Some(n),
        None => match limit(&f.cgroup_v1) {
            Some(n) => if n < 0x4000_0000_0000_0000 {
                Some(n)
            } else {
                None
            },
            None => None,
        },
    };
    let text = match &f.version {
        Some(v) => copy(v.as_str()),
        None => String::new(),
    };
    let version = to_lowercase(text.as_str());
    let hypervisor = match &f.cpuinfo {
        Some(c) => cpuinfo_reports_hypervisor(c.as_str()),
        None => false,
    };
    let vendor = match &f.sys_vendor {
        Some(v) => Some(v.as_str()),
        None => None,
    };
    (linux_virt_of(version.as_str(), f.dockerenv, hypervisor, vendor), ceiling)
}

/// What to tell the user of the environment.
pub open spec fn warning_text(v: Option<VirtView>, ceiling: Option<u64>, physical: nat) -> Option<Seq<char>> {
    match v {
        Some(VirtView::Wsl2) => Some(
            "WSL2 caps memory at ~50% of host RAM by default. Raise it in %UserProfile%\\.wslconfig ([wsl2] memory=12GB) or run natively on Windows for accurate results."@,
        ),
        Some(VirtView::Container) => match ceiling {
            Some(c) => if (c as nat) < physical {
                Some(
                    "Container memory limit is "@ + fixed_text(nearest(rounded(c as nat) * 10, pow2(30)), 1)
                        + " GiB, below physical RAM. Predictions apply to the container, not the host."@,
                )
            } else {
                None
            },
            None => None,
        },
        Some(VirtView::Hypervisor(name)) => Some(
            "Running under a hypervisor ("@ + name
                + "). Disk and memory bandwidth are typically 10-30% below bare metal."@,
        ),
        None => None,
    }
}

fn warning(v: &Option<Virt>, ceiling: Option<u64>, physical: u64) -> (r: Option<String>)
    ensures
        opt_text(r) == warning_text(virt_view(*v), ceiling, physical as nat),
{
    match v {
        Some(Virt::Wsl2) => Some(
            copy(
                "WSL2 caps memory at ~50% of host RAM by default. Raise it in %UserProfile%\\.wslconfig ([wsl2] memory=12GB) or run natively on Windows for accurate results.",
            ),
        ),
        Some(Virt::Container) => match ceiling {
            Some(c) => if c < physical {
                let gib = fixed_decimal(nearest_shifted(round_to_double(c) * 10, 30), 1);
                Some(
                    concat3(
                        "Container memory limit is ",
                        gib.as_str(),
                        " GiB, below physical RAM. Predictions apply to the container, not the host.",
                    ),
                )
            } else {
                None
            },
            None => None,
        },
        Some(Virt::Hypervisor(name)) => Some(
            concat3(
                "Running under a hypervisor (",
                name.as_str(),
                "). Disk and memory bandwidth are typically 10-30% below bare metal.",
            ),
        ),
        None => None,
    }
}

/// The environment as it was detected, with its warning.
pub fn describe(os: String, arch: String, virt: Option<Virt>, memory_ceiling: Option<u64>, physical_total: u64) -> (r: Env)
    ensures
        r.os@ == os@,
        r.arch@ == arch@,
        virt_view(r.virt) == virt_view(virt),
        r.memory_ceiling == memory_ceiling,
        opt_text(r.warning) == warning_text(virt_view(virt), memory_ceiling, physical_total as nat),
{
    let w = warning(&virt, memory_ceiling, physical_total);
    Env { os, arch, virt, memory_ceiling, warning: w }
}

/// A guest whose kernel sees the hypervisor is never taken for bare metal.
pub proof fn a_flagged_guest_is_not_bare_metal(version: Seq<char>, docker: bool, vendor: Option<Seq<char>>)
    ensures
        linux_virt(version, docker, true, vendor) is Some,
{
}

// ------------------------------------------------------- macOS and Windows

/// The kernel of macOS says whether it runs under a hypervisor, not which.
pub fn macos_virt(hypervisor: bool) -> (r: Option<Virt>)
    ensures
        virt_view(r) == (if hypervisor {
            Some(VirtView::Hypervisor("unknown"@))
        } else {
            None
        }),
{
    if hypervisor {
        Some(Virt::Hypervisor(copy("unknown")))
    } else {
        None
    }
}

/// A name without the zero characters it was filled up with.
pub open spec fn unfilled(s: Seq<char>) -> Seq<char>
    decreases s.len(),
{
    if s.len() > 0 && s.last() == '\0' {
        unfilled(s.drop_last())
    } else {
        s
    }
}

/// The processor says by bit 31 of a feature word that a hypervisor is
/// present, and names it in twelve bytes.
pub fn cpuid_virt(features: u32, vendor: &str) -> (r: Option<Virt>)
    ensures
        virt_view(r) == (if features >= 0x8000_0000 {
            Some(VirtView::Hypervisor(unfilled(vendor@)))
        } else {
            None
        }),
{
    if features < 0x8000_0000 {
        return None;
    }
    let v = crate::chars::chars_of(vendor);
    let mut n: usize = v.len();
    assert(v@.subrange(0, n as int) =~= v@);
    while n > 0 && v[n - 1] == '\0'
        invariant
            n <= v@.len(),
            unfilled(v@.subrange(0, n as int)) == unfilled(v@),
        decreases n,
    {
        assert(v@.subrange(0, n as int).drop_last() =~= v@.subrange(0, n - 1));
        n -= 1;
    }
    Some(Virt::Hypervisor(crate::chars::string_of(&v, 0, n)))
}

} // verus!
