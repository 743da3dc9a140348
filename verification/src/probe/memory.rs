//! Physical memory.
//!
//! The number that matters is `available`: free memory plus what the kernel
//! can reclaim without swapping.

use vstd::prelude::*;
use crate::chars::{cut, cut_at, lines, lines_of, parse_unsigned, same, texts, unsigned, words, words_of};

verus! {

pub struct Memory {
    /// Physical RAM visible to the OS, in bytes.
    pub total: u64,
    /// Reclaimable without swapping, in bytes.
    pub available: u64,
    pub page_size: u64,
    /// RAM the firmware carved out before the OS booted. `None` when it cannot
    /// be determined.
    pub firmware_reserved: Option<u64>,
    /// How much unified memory the GPU may wire down, on macOS.
    pub gpu_wired_limit: Option<u64>,
    /// True when CPU and GPU share one physical pool.
    pub unified: bool,
}

/// What a field of `/proc/meminfo` holds, in bytes.
pub open spec fn field_bytes(v: Seq<char>) -> Option<nat> {
    let w = words(v);
    if w.len() == 0 {
        None
    } else {
        match unsigned(w[0], u64::MAX as nat) {
            Some(kb) => Some((kb * 1024) % 0x1_0000_0000_0000_0000),
            None => None,
        }
    }
}

/// The field called `key`, read line by line: a line without a colon ends the
/// reading.
pub open spec fn meminfo_field(l: Seq<Seq<char>>, key: Seq<char>) -> Option<nat>
    decreases l.len(),
{
    if l.len() == 0 {
        None
    } else {
        match cut(l[0], ':') {
            None => None,
            Some((k, v)) => if k == key {
                field_bytes(v)
            } else {
                meminfo_field(l.subrange(1, l.len() as int), key)
            },
        }
    }
}

fn bytes_of(v: &str) -> (r: Option<u64>)
    ensures
        match r {
            Some(n) => field_bytes(v@) == Some(n as nat),
            None => field_bytes(v@) is None,
        },
{
    let w = words_of(v);
    assert(texts(w@).len() == w@.len());
    if w.len() == 0 {
        return None;
    }
    assert(texts(w@)[0] == w@[0]@);
    match parse_unsigned(w[0].as_str(), u64::MAX) {
        Some(kb) => Some(kb.wrapping_mul(1024)),
        None => None,
    }
}

/// A field of `/proc/meminfo`, which is `Key:   value kB` lines.
pub fn meminfo(text: &str, key: &str) -> (r: Option<u64>)
    ensures
        match r {
            Some(n) => meminfo_field(lines(text@), key@) == Some(n as nat),
            None => meminfo_field(lines(text@), key@) is None,
        },
{
    let l = lines_of(text);
    let ghost all = texts(l@);
    let mut i: usize = 0;
    assert(all.subrange(0, all.len() as int) =~= all);
    while i < l.len()
        invariant
            i <= l@.len(),
            all == texts(l@),
            all == lines(text@),
            meminfo_field(all.subrange(i as int, all.len() as int), key@) == meminfo_field(all, key@),
        decreases l@.len() - i,
    {
        let ghost rest = all.subrange(i as int, all.len() as int);
        assert(rest[0] == l@[i as int]@);
        assert(rest.subrange(1, rest.len() as int) =~= all.subrange(i + 1, all.len() as int));
        match cut_at(l[i].as_str(), ':') {
            None => return None,
            Some((k, v)) => {
                if same(k.as_str(), key) {
                    return bytes_of(v.as_str());
                }
            },
        }
        i += 1;
    }
    None
}

/// What can be used: the kernel's own figure, or free and cached memory where
/// it has none, or seven tenths of the total.
pub open spec fn available_in(l: Seq<Seq<char>>, total: nat) -> nat {
    match meminfo_field(l, "MemAvailable"@) {
        Some(n) => n,
        None => match (meminfo_field(l, "MemFree"@), meminfo_field(l, "Cached"@)) {
            (Some(a), Some(b)) => (a + b) % 0x1_0000_0000_0000_0000,
            _ => ((total * 7) % 0x1_0000_0000_0000_0000) / 10,
        },
    }
}

/// The memory that Linux describes.
pub fn from_linux(text: &str, page_size: u64) -> (r: Memory)
    ensures
        r.total as nat == (match meminfo_field(lines(text@), "MemTotal"@) {
            Some(n) => n,
            None => 0,
        }),
        r.available as nat == available_in(lines(text@), r.total as nat),
        r.page_size == page_size,
        r.firmware_reserved is None,
        r.gpu_wired_limit is None,
        !r.unified,
{
    let total: u64 = match meminfo(text, "MemTotal") {
        Some(n) => n,
        None => 0,
    };
    let available: u64 = match meminfo(text, "MemAvailable") {
        Some(n) => n,
        None => match (meminfo(text, "MemFree"), meminfo(text, "Cached")) {
            (Some(a), Some(b)) => a.wrapping_add(b),
            _ => total.wrapping_mul(7) / 10,
        },
    };
    Memory {
        total,
        available,
        page_size,
        firmware_reserved: None,
        gpu_wired_limit: None,
        unified: false,
    }
}

/// The page counters that macOS keeps.
#[derive(Debug, Clone, Copy, PartialEq, Eq, Structural)]
pub struct VmPages {
    /// Anonymous pages owned by processes.
    pub internal: u32,
    /// Those of them the kernel may discard on demand.
    pub purgeable: u32,
    /// Pinned, never pageable.
    pub wired: u32,
    /// Held by the memory compressor.
    pub compressor: u32,
}

/// The pages in use: what is owned and cannot be discarded, what is pinned and
/// what is compressed. Everything else is reclaimable.
pub open spec fn used_pages(p: VmPages) -> nat {
    let owned = if p.internal >= p.purgeable { (p.internal - p.purgeable) as nat } else { 0 };
    owned + p.wired as nat + p.compressor as nat
}

/// What can be used on macOS: what is not in use, or seven tenths of the total
/// where the counters could not be read.
pub open spec fn mac_available(total: nat, page_size: nat, pages: Option<VmPages>) -> nat {
    match pages {
        Some(p) => {
            let used = (used_pages(p) * page_size) % 0x1_0000_0000_0000_0000;
            if used <= total {
                (total - used) as nat
            } else {
                0
            }
        },
        None => ((total * 7) % 0x1_0000_0000_0000_0000) / 10,
    }
}

/// The memory that macOS describes. A GPU limit of zero is the kernel's
/// default, and Apple Silicon shares one pool.
pub fn from_macos(page_size: Option<u64>, total: Option<u64>, pages: Option<VmPages>, wired_limit_mb: Option<u64>, aarch64: bool) -> (r: Memory)
    ensures
        r.page_size == (match page_size {
            Some(n) => n,
            None => 16384,
        }),
        r.total == (match total {
            Some(n) => n,
            None => 0,
        }),
        r.available as nat == mac_available(r.total as nat, r.page_size as nat, pages),
        r.firmware_reserved == Some(0u64),
        match (wired_limit_mb, r.gpu_wired_limit) {
            (Some(mb), Some(b)) => mb > 0 && b as nat == (mb as nat * 1_048_576) % 0x1_0000_0000_0000_0000,
            (Some(mb), None) => mb == 0,
            (None, b) => b is None,
        },
        r.unified == aarch64,
{
    let page_size: u64 = match page_size {
        Some(n) => n,
        None => 16384,
    };
    let total: u64 = match total {
        Some(n) => n,
        None => 0,
    };
    let available: u64 = match pages {
        Some(p) => {
            let owned: u64 = if p.internal >= p.purgeable { (p.internal - p.purgeable) as u64 } else { 0 };
            let used: u64 = owned + p.wired as u64 + p.compressor as u64;
            total.saturating_sub(used.wrapping_mul(page_size))
        },
        None => total.wrapping_mul(7) / 10,
    };
    let gpu_wired_limit = match wired_limit_mb {
        Some(mb) => if mb > 0 {
            Some(mb.wrapping_mul(1_048_576))
        } else {
            None
        },
        None => None,
    };
    Memory { total, available, page_size, firmware_reserved: Some(0), gpu_wired_limit, unified: aarch64 }
}

/// The memory that Windows describes: the total and what is available, which
/// counts the cached pages that can be handed back.
pub fn from_windows(status: Option<(u64, u64)>) -> (r: Memory)
    ensures
        match status {
            Some((total, available)) => r.total == total && r.available == available,
            None => r.total == 0 && r.available == 0,
        },
        r.page_size == 4096,
        r.firmware_reserved is None,
        r.gpu_wired_limit is None,
        !r.unified,
{
    let (total, available): (u64, u64) = match status {
        Some(p) => p,
        None => (0, 0),
    };
    Memory { total, available, page_size: 4096, firmware_reserved: None, gpu_wired_limit: None, unified: false }
}

} // verus!
