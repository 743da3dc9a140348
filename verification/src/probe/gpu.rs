//! GPU discovery.
//!
//! Without this, a machine with a discrete GPU is predicted as a CPU machine,
//! which is wrong by roughly an order of magnitude. Two rules govern it:
//!
//! Only dedicated VRAM counts. An integrated part's aperture or the "shared
//! system memory" of Windows is not extra memory, so every integrated part is
//! recorded with no VRAM.
//!
//! Bandwidth is looked up, not measured, from a small family-level table, and
//! everything built on it says so.

use vstd::prelude::*;
use crate::chars::{
    after_prefix, chars_of, concat2, contains, copy, cut, cut_at, find_chars, mentions, hex_unsigned, is_alnum, is_digit, lines, lines_of,
    lowercase, occurs_at, parse_hex, parse_unsigned, same, split, split_on, starts_with, string_of, texts, to_lowercase, trim,
    trimmed, unsigned, without_prefix,
};
use crate::report::opt_str;

verus! {

#[derive(Debug, Clone, Copy, PartialEq, Eq, Structural)]
pub enum Vendor {
    Nvidia,
    Amd,
    Intel,
    Apple,
    Other,
}

impl Vendor {
    pub open spec fn tag_text(self) -> Seq<char> {
        match self {
            Vendor::Nvidia => "nvidia"@,
            Vendor::Amd => "amd"@,
            Vendor::Intel => "intel"@,
            Vendor::Apple => "apple"@,
            Vendor::Other => "other"@,
        }
    }

    pub fn tag(self) -> (r: &'static str)
        ensures
            r@ == self.tag_text(),
    {
        match self {
            Vendor::Nvidia => "nvidia",
            Vendor::Amd => "amd",
            Vendor::Intel => "intel",
            Vendor::Apple => "apple",
            Vendor::Other => "other",
        }
    }
}

pub struct Gpu {
    pub name: String,
    pub vendor: Vendor,
    /// Dedicated VRAM of one card, in bytes. Always 0 for integrated parts,
    /// and never summed: two 8 GB cards are not a 16 GB card.
    pub vram_bytes: u64,
    pub integrated: bool,
    /// Identical adapters collapse into one entry with a count.
    pub count: u32,
    /// Which detector produced this entry.
    pub source: &'static str,
    /// Peak memory bandwidth, GB/s, looked up.
    pub bw_gbs: u32,
    /// Shader core count, when the platform reports one. `None` means unknown,
    /// never zero. On macOS it is the only signal that separates a real GPU
    /// from a virtual machine's adapter.
    pub cores: Option<u32>,
}

/// What a [`Gpu`] holds.
pub struct GpuView {
    pub name: Seq<char>,
    pub vendor: Vendor,
    pub vram_bytes: nat,
    pub integrated: bool,
    pub count: nat,
    pub source: Seq<char>,
    pub bw_gbs: nat,
    pub cores: Option<u32>,
}

impl View for Gpu {
    type V = GpuView;

    open spec fn view(&self) -> GpuView {
        GpuView {
            name: self.name@,
            vendor: self.vendor,
            vram_bytes: self.vram_bytes as nat,
            integrated: self.integrated,
            count: self.count as nat,
            source: self.source@,
            bw_gbs: self.bw_gbs as nat,
            cores: self.cores,
        }
    }
}

pub open spec fn gpu_views(v: Seq<Gpu>) -> Seq<GpuView> {
    v.map_values(|g: Gpu| g@)
}

// ---------------------------------------------------------------- bandwidth

/// Bandwidth assumed for a discrete GPU that is not recognised, GB/s: the
/// floor of the table, because understating speed is the safe direction.
pub const UNMATCHED_GBS: u32 = 192;

/// Peak memory bandwidth by card family, GB/s, by a lower-case name.
pub open spec fn family_bandwidth(n: Seq<char>) -> nat {
    if contains(n, "5090"@) {
        1792
    } else if contains(n, "5080"@) {
        960
    } else if contains(n, "5070"@) {
        672
    } else if contains(n, "5060"@) {
        448
    } else if contains(n, "4090"@) {
        1008
    } else if contains(n, "4080"@) {
        717
    } else if contains(n, "4070"@) {
        504
    } else if contains(n, "4060"@) {
        272
    } else if contains(n, "3090"@) {
        936
    } else if contains(n, "3080"@) {
        760
    } else if contains(n, "3070"@) {
        448
    } else if contains(n, "3060"@) {
        360
    } else if contains(n, "2080"@) {
        448
    } else if contains(n, "2070"@) {
        448
    } else if contains(n, "2060"@) {
        336
    } else if contains(n, "1660"@) {
        192
    } else if contains(n, "1650"@) {
        192
    } else if contains(n, "h100"@) {
        3350
    } else if contains(n, "a100"@) {
        1555
    } else if contains(n, "l40"@) {
        864
    } else if contains(n, "a6000"@) {
        768
    } else if contains(n, "7900"@) {
        960
    } else if contains(n, "7800"@) {
        624
    } else if contains(n, "7700"@) {
        432
    } else if contains(n, "7600"@) {
        288
    } else if contains(n, "6900"@) {
        512
    } else if contains(n, "6800"@) {
        512
    } else if contains(n, "6700"@) {
        384
    } else if contains(n, "6600"@) {
        224
    } else if contains(n, "a770"@) {
        560
    } else if contains(n, "a750"@) {
        512
    } else if contains(n, "b580"@) {
        456
    } else {
        UNMATCHED_GBS as nat
    }
}

/// Peak memory bandwidth by card family, GB/s.
pub fn bandwidth_gbs(name: &str) -> (r: u32)
    ensures
        r as nat == family_bandwidth(lowercase(name@)),
{
    let n = to_lowercase(name);
    bandwidth_of_lower(n.as_str())
}

/// Peak memory bandwidth by card family, for a name in lower case.
pub fn bandwidth_of_lower(n: &str) -> (r: u32)
    ensures
        r as nat == family_bandwidth(n@),
{
    if mentions(n, "5090") {
        1792
    } else if mentions(n, "5080") {
        960
    } else if mentions(n, "5070") {
        672
    } else if mentions(n, "5060") {
        448
    } else if mentions(n, "4090") {
        1008
    } else if mentions(n, "4080") {
        717
    } else if mentions(n, "4070") {
        504
    } else if mentions(n, "4060") {
        272
    } else if mentions(n, "3090") {
        936
    } else if mentions(n, "3080") {
        760
    } else if mentions(n, "3070") {
        448
    } else if mentions(n, "3060") {
        360
    } else if mentions(n, "2080") {
        448
    } else if mentions(n, "2070") {
        448
    } else if mentions(n, "2060") {
        336
    } else if mentions(n, "1660") {
        192
    } else if mentions(n, "1650") {
        192
    } else if mentions(n, "h100") {
        3350
    } else if mentions(n, "a100") {
        1555
    } else if mentions(n, "l40") {
        864
    } else if mentions(n, "a6000") {
        768
    } else if mentions(n, "7900") {
        960
    } else if mentions(n, "7800") {
        624
    } else if mentions(n, "7700") {
        432
    } else if mentions(n, "7600") {
        288
    } else if mentions(n, "6900") {
        512
    } else if mentions(n, "6800") {
        512
    } else if mentions(n, "6700") {
        384
    } else if mentions(n, "6600") {
        224
    } else if mentions(n, "a770") {
        560
    } else if mentions(n, "a750") {
        512
    } else if mentions(n, "b580") {
        456
    } else {
        UNMATCHED_GBS
    }
}

// ----------------------------------------------------------- classification

/// The vendor of a lower-case name.
pub open spec fn vendor_in(n: Seq<char>) -> Vendor {
    if contains(n, "nvidia"@) || contains(n, "geforce"@) || contains(n, "quadro"@) || contains(n, "tesla"@) {
        Vendor::Nvidia
    } else if contains(n, "amd"@) || contains(n, "radeon"@) || contains(n, "ati "@) {
        Vendor::Amd
    } else if contains(n, "intel"@) {
        Vendor::Intel
    } else if contains(n, "apple"@) {
        Vendor::Apple
    } else {
        Vendor::Other
    }
}

/// The characters from `i` to `j` are a token: letters and digits, with none
/// on either side.
pub open spec fn is_token(s: Seq<char>, i: int, j: int) -> bool {
    &&& 0 <= i < j <= s.len()
    &&& forall|k: int| i <= k < j ==> is_alnum(#[trigger] s[k])
    &&& i == 0 || !is_alnum(s[i - 1])
    &&& j == s.len() || !is_alnum(s[j])
}

/// AMD's mobile integrated parts are named by three digits and an m.
pub open spec fn mobile_at(s: Seq<char>, i: int) -> bool {
    is_token(s, i, i + 4) && is_digit(s[i]) && is_digit(s[i + 1]) && is_digit(s[i + 2]) && s[i + 3] == 'm'
}

/// Intel's discrete parts carry a model token such as a770 or b580; "arc"
/// alone does not mean discrete.
pub open spec fn arc_at(s: Seq<char>, i: int) -> bool {
    is_token(s, i, i + 4) && (s[i] == 'a' || s[i] == 'b') && is_digit(s[i + 1]) && is_digit(s[i + 2]) && is_digit(
        s[i + 3],
    )
}

pub open spec fn rx_at(s: Seq<char>, i: int) -> bool {
    is_token(s, i, i + 2) && s[i] == 'r' && s[i + 1] == 'x'
}

pub open spec fn has_mobile_token(s: Seq<char>) -> bool {
    exists|i: int| mobile_at(s, i)
}

pub open spec fn has_arc_token(s: Seq<char>) -> bool {
    exists|i: int| arc_at(s, i)
}

pub open spec fn has_rx_token(s: Seq<char>) -> bool {
    exists|i: int| rx_at(s, i)
}

/// Integrated or discrete, by a lower-case name and the memory it reports.
pub open spec fn integrated_in(n: Seq<char>, vram: nat) -> bool {
    match vendor_in(n) {
        Vendor::Apple => true,
        Vendor::Nvidia => contains(n, "nvgpu"@) || contains(n, "tegra"@) || contains(n, "orin"@) || contains(
            n,
            "gb10"@,
        ) || contains(n, "gb20"@),
        Vendor::Intel => !has_arc_token(n),
        Vendor::Amd => if contains(n, "ryzen ai max"@) {
            true
        } else if has_mobile_token(n) {
            true
        } else if has_rx_token(n) {
            false
        } else if contains(n, "graphics"@) {
            vram < 8_589_934_592
        } else {
            false
        },
        Vendor::Other => vram == 0,
    }
}

fn alnum(c: char) -> (r: bool)
    ensures
        r == is_alnum(c),
{
    ('0' <= c && c <= '9') || ('a' <= c && c <= 'z') || ('A' <= c && c <= 'Z')
}

fn dig(c: char) -> (r: bool)
    ensures
        r == is_digit(c),
{
    '0' <= c && c <= '9'
}

fn token_at(v: &Vec<char>, i: usize, len: usize) -> (r: bool)
    requires
        i < v@.len(),
        0 < len <= 4,
    ensures
        r == is_token(v@, i as int, i + len),
{
    if v.len() - i < len {
        return false;
    }
    if i > 0 && alnum(v[i - 1]) {
        return false;
    }
    if v.len() - i > len && alnum(v[i + len]) {
        return false;
    }
    let mut k: usize = 0;
    while k < len
        invariant
            k <= len,
            i + len <= v@.len(),
            v@.len() <= usize::MAX,
            forall|j: int| i <= j < i + k ==> is_alnum(#[trigger] v@[j]),
        decreases len - k,
    {
        if !alnum(v[i + k]) {
            return false;
        }
        k += 1;
    }
    true
}

fn has_mobile_igpu_token(lower: &str) -> (r: bool)
    ensures
        r == has_mobile_token(lower@),
{
    let v = chars_of(lower);
    let mut i: usize = 0;
    while i < v.len()
        invariant
            i <= v@.len(),
            v@ == lower@,
            forall|j: int| 0 <= j < i ==> !mobile_at(v@, j),
        decreases v@.len() - i,
    {
        if token_at(&v, i, 4) && dig(v[i]) && dig(v[i + 1]) && dig(v[i + 2]) && v[i + 3] == 'm' {
            assert(mobile_at(v@, i as int));
            return true;
        }
        i += 1;
    }
    false
}

fn has_arc_model_token(lower: &str) -> (r: bool)
    ensures
        r == has_arc_token(lower@),
{
    let v = chars_of(lower);
    let mut i: usize = 0;
    while i < v.len()
        invariant
            i <= v@.len(),
            v@ == lower@,
            forall|j: int| 0 <= j < i ==> !arc_at(v@, j),
        decreases v@.len() - i,
    {
        if token_at(&v, i, 4) && (v[i] == 'a' || v[i] == 'b') && dig(v[i + 1]) && dig(v[i + 2]) && dig(v[i + 3]) {
            assert(arc_at(v@, i as int));
            return true;
        }
        i += 1;
    }
    false
}

fn has_rx(lower: &str) -> (r: bool)
    ensures
        r == has_rx_token(lower@),
{
    let v = chars_of(lower);
    let mut i: usize = 0;
    while i < v.len()
        invariant
            i <= v@.len(),
            v@ == lower@,
            forall|j: int| 0 <= j < i ==> !rx_at(v@, j),
        decreases v@.len() - i,
    {
        if token_at(&v, i, 2) && v[i] == 'r' && v[i + 1] == 'x' {
            assert(rx_at(v@, i as int));
            return true;
        }
        i += 1;
    }
    false
}

/// The vendor of a name in lower case.
pub fn vendor_of_lower(n: &str) -> (r: Vendor)
    ensures
        r == vendor_in(n@),
{
    if mentions(n, "nvidia") || mentions(n, "geforce") || mentions(n, "quadro") || mentions(n, "tesla") {
        Vendor::Nvidia
    } else if mentions(n, "amd") || mentions(n, "radeon") || mentions(n, "ati ") {
        Vendor::Amd
    } else if mentions(n, "intel") {
        Vendor::Intel
    } else if mentions(n, "apple") {
        Vendor::Apple
    } else {
        Vendor::Other
    }
}

pub fn vendor_of(name: &str) -> (r: Vendor)
    ensures
        r == vendor_in(lowercase(name@)),
{
    let n = to_lowercase(name);
    vendor_of_lower(n.as_str())
}

/// Integrated or discrete? Every wrong answer is a prediction off by an order
/// of magnitude in one direction or the other.
pub fn is_integrated(name: &str, vram: u64) -> (r: bool)
    ensures
        r == integrated_in(lowercase(name@), vram as nat),
{
    let n = to_lowercase(name);
    is_integrated_lower(n.as_str(), vram)
}

/// Integrated or discrete, for a name in lower case.
pub fn is_integrated_lower(n: &str, vram: u64) -> (r: bool)
    ensures
        r == integrated_in(n@, vram as nat),
{
    match vendor_of_lower(n) {
        Vendor::Apple => true,
        // One family of unified-memory parts; everything else is discrete.
        Vendor::Nvidia => mentions(n, "nvgpu") || mentions(n, "tegra") || mentions(n, "orin") || mentions(n, "gb10") || mentions(n, "gb20"),
        Vendor::Intel => !has_arc_model_token(n),
        Vendor::Amd => {
            // One pool, marketed as an APU.
            if mentions(n, "ryzen ai max") {
                return true;
            }
            if has_mobile_igpu_token(n) {
                return true;
            }
            if has_rx(n) {
                return false;
            }
            // A generic name plus real VRAM is a discrete card; a generic name
            // with a small aperture is an APU.
            if mentions(n, "graphics") {
                return vram < 8_589_934_592;
            }
            false
        },
        Vendor::Other => vram == 0,
    }
}

/// The entry for an adapter by its name and the memory it reports.
pub open spec fn adapter(name: Seq<char>, vram: nat, source: Seq<char>) -> GpuView {
    let n = lowercase(name);
    let integrated = integrated_in(n, vram);
    GpuView {
        name,
        vendor: vendor_in(n),
        vram_bytes: if integrated { 0 } else { vram },
        integrated,
        count: 1,
        source,
        bw_gbs: family_bandwidth(n),
        cores: None,
    }
}

impl Gpu {
    /// Build an entry from a detector's raw name and memory figure, applying
    /// the dedicated-VRAM-only rule in one place so no detector can forget it.
    pub fn new(name: String, vram: u64, source: &'static str) -> (r: Gpu)
        ensures
            r@ == adapter(name@, vram as nat, source@),
    {
        let vendor = vendor_of(name.as_str());
        let integrated = is_integrated(name.as_str(), vram);
        let bw_gbs: u32 = bandwidth_gbs(name.as_str());
        Gpu {
            name,
            vendor,
            vram_bytes: if integrated { 0 } else { vram },
            integrated,
            count: 1,
            source,
            bw_gbs,
            cores: None,
        }
    }

    /// Whether this adapter can be relied on to actually run inference.
    ///
    /// A macOS virtual machine presents an adapter that advertises Metal with
    /// no shader cores behind it, so for Apple parts a core count decides.
    /// Every other vendor's driver would not have answered for a card that is
    /// not real.
    pub fn usable_for_compute(&self) -> (r: bool)
        ensures
            r == (self.vendor == Vendor::Apple ==> self.cores is Some),
    {
        match self.vendor {
            Vendor::Apple => self.cores.is_some(),
            _ => true,
        }
    }
}

/// An integrated part never counts as memory of its own.
pub proof fn integrated_parts_have_no_vram(name: Seq<char>, vram: nat, source: Seq<char>)
    ensures
        adapter(name, vram, source).integrated ==> adapter(name, vram, source).vram_bytes == 0,
        adapter(name, vram, source).vram_bytes <= vram,
{
}

// ----------------------------------------------------------------- grouping

/// The first entry of `v` for the same adapter as `g`.
pub open spec fn twin(v: Seq<GpuView>, g: GpuView) -> Option<int>
    decreases v.len(),
{
    if v.len() == 0 {
        None
    } else {
        match twin(v.drop_last(), g) {
            Some(i) => Some(i),
            None => if v.last().name == g.name && v.last().vram_bytes == g.vram_bytes {
                Some(v.len() - 1)
            } else {
                None
            },
        }
    }
}

/// One entry per adapter, each counted once more for every other of its kind.
pub open spec fn collapsed(v: Seq<GpuView>) -> Seq<GpuView>
    decreases v.len(),
{
    if v.len() == 0 {
        v
    } else {
        let rest = collapsed(v.drop_last());
        match twin(rest, v.last()) {
            Some(i) => rest.update(i, GpuView { count: rest[i].count + 1, ..rest[i] }),
            None => rest.push(v.last()),
        }
    }
}

proof fn lemma_twin_stays(v: Seq<GpuView>, k: int, g: GpuView)
    requires
        0 <= k <= v.len(),
        twin(v.subrange(0, k), g) is Some,
    ensures
        twin(v, g) == twin(v.subrange(0, k), g),
    decreases v.len() - k,
{
    if k < v.len() {
        assert(v.drop_last().subrange(0, k) =~= v.subrange(0, k));
        lemma_twin_stays(v.drop_last(), k, g);
    } else {
        assert(v.subrange(0, k) =~= v);
    }
}

fn find_twin(v: &Vec<Gpu>, g: &Gpu) -> (r: Option<usize>)
    ensures
        match r {
            Some(i) => twin(gpu_views(v@), g@) == Some(i as int) && i < v@.len(),
            None => twin(gpu_views(v@), g@) is None,
        },
{
    let ghost views = gpu_views(v@);
    let mut i: usize = 0;
    while i < v.len()
        invariant
            i <= v@.len(),
            views == gpu_views(v@),
            twin(views.subrange(0, i as int), g@) is None,
        decreases v@.len() - i,
    {
        assert(views.subrange(0, i + 1).drop_last() =~= views.subrange(0, i as int));
        assert(views.subrange(0, i + 1).last() == v@[i as int]@);
        if same(v[i].name.as_str(), g.name.as_str()) && v[i].vram_bytes == g.vram_bytes {
            proof {
                lemma_twin_stays(views, i + 1, g@);
            }
            return Some(i);
        }
        i += 1;
    }
    assert(views.subrange(0, i as int) =~= views);
    None
}

/// Collapse identical adapters into one entry with a count. VRAM stays
/// per-card.
pub fn group(gpus: Vec<Gpu>) -> (r: Vec<Gpu>)
    requires
        forall|i: int| 0 <= i < gpus@.len() ==> (#[trigger] gpus@[i]).count + gpus@.len() <= u32::MAX,
    ensures
        gpu_views(r@) == collapsed(gpu_views(gpus@)),
{
    let ghost all = gpu_views(gpus@);
    let ghost n = gpus@.len();
    let mut left = gpus;
    let mut taken: Vec<Gpu> = Vec::new();
    while left.len() > 0
        invariant
            n == all.len(),
            left@.len() + taken@.len() == n,
            gpu_views(left@) == all.subrange(0, left@.len() as int),
            forall|i: int| 0 <= i < taken@.len() ==> (#[trigger] taken@[i])@ == all[all.len() - 1 - i],
        decreases left@.len(),
    {
        let ghost prev = left@;
        if let Some(g) = left.pop() {
            assert(gpu_views(prev)[prev.len() - 1] == g@);
            assert(gpu_views(left@) =~= all.subrange(0, left@.len() as int)) by {
                assert forall|i: int| 0 <= i < left@.len() implies gpu_views(left@)[i] == all[i] by {
                    assert(gpu_views(prev)[i] == prev[i]@);
                }
            }
            taken.push(g);
        }
    }
    assert forall|i: int| 0 <= i < n implies (#[trigger] all[i]).count + n <= u32::MAX by {
        assert(all[i] == gpus@[i]@);
    }
    let mut out: Vec<Gpu> = Vec::new();
    assert(gpu_views(out@) =~= collapsed(all.subrange(0, 0)));
    while taken.len() > 0
        invariant
            n == all.len(),
            taken@.len() <= n,
            forall|i: int| 0 <= i < n ==> (#[trigger] all[i]).count + n <= u32::MAX,
            forall|i: int| 0 <= i < taken@.len() ==> (#[trigger] taken@[i])@ == all[all.len() - 1 - i],
            gpu_views(out@) == collapsed(all.subrange(0, all.len() - taken@.len())),
            forall|i: int| 0 <= i < out@.len() ==> (#[trigger] out@[i]).count + taken@.len() <= u32::MAX,
        decreases taken@.len(),
    {
        let ghost k = all.len() - taken@.len();
        if let Some(g) = taken.pop() {
            assert(g@ == all[k]);
            assert(all.subrange(0, k + 1).drop_last() =~= all.subrange(0, k));
            assert(all.subrange(0, k + 1).last() == g@);
            let ghost before = out@;
            match find_twin(&out, &g) {
                Some(i) => {
                    let mut o = out.remove(i);
                    o.count = o.count + 1;
                    out.insert(i, o);
                    assert(gpu_views(out@) =~= gpu_views(before).update(
                        i as int,
                        GpuView { count: gpu_views(before)[i as int].count + 1, ..gpu_views(before)[i as int] },
                    ));
                    assert forall|j: int| 0 <= j < out@.len() implies (#[trigger] out@[j]).count + taken@.len() <= u32::MAX by {
                        if j != i {
                            assert(out@[j] == before[j]);
                        } else {
                            assert(before[j].count + taken@.len() + 1 <= u32::MAX);
                        }
                    }
                },
                None => {
                    out.push(g);
                    assert(gpu_views(out@) =~= gpu_views(before).push(g@));
                    assert forall|j: int| 0 <= j < out@.len() implies (#[trigger] out@[j]).count + taken@.len() <= u32::MAX by {
                        if j < before.len() {
                            assert(out@[j] == before[j]);
                        }
                    }
                },
            }
        }
    }
    assert(all.subrange(0, all.len() as int) =~= all);
    out
}

/// Grouping adds and drops no adapter: the counts still sum to what was there.
pub open spec fn total_count(v: Seq<GpuView>) -> nat
    decreases v.len(),
{
    if v.len() == 0 {
        0
    } else {
        total_count(v.drop_last()) + v.last().count
    }
}

proof fn lemma_total_update(v: Seq<GpuView>, i: int, g: GpuView)
    requires
        0 <= i < v.len(),
    ensures
        total_count(v.update(i, g)) == total_count(v) - v[i].count + g.count,
    decreases v.len(),
{
    let u = v.update(i, g);
    if i == v.len() - 1 {
        assert(u.drop_last() =~= v.drop_last());
    } else {
        assert(u.drop_last() =~= v.drop_last().update(i, g));
        lemma_total_update(v.drop_last(), i, g);
    }
}

pub proof fn lemma_twin_in_range(v: Seq<GpuView>, g: GpuView)
    ensures
        twin(v, g) matches Some(i) ==> 0 <= i < v.len() && v[i].name == g.name && v[i].vram_bytes == g.vram_bytes,
    decreases v.len(),
{
    if v.len() > 0 {
        lemma_twin_in_range(v.drop_last(), g);
    }
}

/// Every card that was found is counted in some entry.
pub proof fn grouping_counts_every_card(v: Seq<GpuView>)
    requires
        forall|i: int| 0 <= i < v.len() ==> (#[trigger] v[i]).count == 1,
    ensures
        total_count(collapsed(v)) == v.len(),
    decreases v.len(),
{
    if v.len() > 0 {
        let rest = collapsed(v.drop_last());
        assert forall|i: int| 0 <= i < v.drop_last().len() implies (#[trigger] v.drop_last()[i]).count == 1 by {
            assert(v.drop_last()[i] == v[i]);
        }
        grouping_counts_every_card(v.drop_last());
        lemma_twin_in_range(rest, v.last());
        match twin(rest, v.last()) {
            Some(i) => {
                lemma_total_update(rest, i, GpuView { count: rest[i].count + 1, ..rest[i] });
            },
            None => {
                assert(rest.push(v.last()).drop_last() =~= rest);
            },
        }
    }
}

// ---------------------------------------------------------------- detectors

/// The field at `i` of the fields, white space trimmed.
pub open spec fn field(f: Seq<Seq<char>>, i: int) -> Seq<char> {
    if 0 <= i < f.len() {
        trim(f[i])
    } else {
        Seq::empty()
    }
}

/// A line of `nvidia-smi`: mebibytes, a comma and the name.
pub open spec fn nvidia_line(line: Seq<char>) -> Option<GpuView> {
    let t = trim(line);
    let f = split(t, ',');
    match unsigned(field(f, 0), u64::MAX as nat) {
        Some(mib) => if t.len() > 0 && field(f, 1).len() > 0 {
            Some(
                adapter(
                    "NVIDIA "@ + field(f, 1),
                    (mib * 1_048_576) % 0x1_0000_0000_0000_0000,
                    "nvidia-smi"@,
                ),
            )
        } else {
            None
        },
        None => None,
    }
}

/// A line of the Windows probe: the name, the adapter's memory and the
/// registry's figure, whichever is larger.
pub open spec fn windows_line(line: Seq<char>) -> Option<GpuView> {
    let f = split(trim(line), '|');
    let ram = match unsigned(field(f, 1), u64::MAX as nat) {
        Some(n) => n,
        None => 0,
    };
    let qw = match unsigned(field(f, 2), u64::MAX as nat) {
        Some(n) => n,
        None => 0,
    };
    if field(f, 0).len() > 0 {
        Some(adapter(field(f, 0), if qw >= ram { qw } else { ram }, "wmi"@))
    } else {
        None
    }
}

/// The cards that the lines of `nvidia-smi` list.
pub open spec fn nvidia_cards(l: Seq<Seq<char>>) -> Seq<GpuView>
    decreases l.len(),
{
    if l.len() == 0 {
        Seq::empty()
    } else {
        let rest = nvidia_cards(l.drop_last());
        match nvidia_line(l.last()) {
            Some(g) => rest.push(g),
            None => rest,
        }
    }
}

/// The adapters that the lines of the Windows probe list.
pub open spec fn windows_cards(l: Seq<Seq<char>>) -> Seq<GpuView>
    decreases l.len(),
{
    if l.len() == 0 {
        Seq::empty()
    } else {
        let rest = windows_cards(l.drop_last());
        match windows_line(l.last()) {
            Some(g) => rest.push(g),
            None => rest,
        }
    }
}

fn trimmed_field(f: &Vec<String>, i: usize) -> (r: String)
    ensures
        r@ == field(texts(f@), i as int),
{
    if i < f.len() {
        assert(texts(f@)[i as int] == f@[i as int]@);
        trimmed(f[i].as_str())
    } else {
        assert(texts(f@).len() == f@.len());
        String::new()
    }
}

fn nvidia_card(line: &str) -> (r: Option<Gpu>)
    ensures
        match r {
            Some(g) => nvidia_line(line@) == Some(g@),
            None => nvidia_line(line@) is None,
        },
{
    let t = trimmed(line);
    if t.as_str().unicode_len() == 0 {
        return None;
    }
    let f = split_on(t.as_str(), ',');
    let number = trimmed_field(&f, 0);
    let name = trimmed_field(&f, 1);
    match parse_unsigned(number.as_str(), u64::MAX) {
        Some(mib) => if name.as_str().unicode_len() == 0 {
            None
        } else {
            let vram: u64 = mib.wrapping_mul(1_048_576);
            Some(Gpu::new(concat2("NVIDIA ", name.as_str()), vram, "nvidia-smi"))
        },
        None => None,
    }
}

fn windows_card(line: &str) -> (r: Option<Gpu>)
    ensures
        match r {
            Some(g) => windows_line(line@) == Some(g@),
            None => windows_line(line@) is None,
        },
{
    let t = trimmed(line);
    let f = split_on(t.as_str(), '|');
    let name = trimmed_field(&f, 0);
    if name.as_str().unicode_len() == 0 {
        return None;
    }
    let a = trimmed_field(&f, 1);
    let b = trimmed_field(&f, 2);
    let ram: u64 = match parse_unsigned(a.as_str(), u64::MAX) {
        Some(n) => n,
        None => 0,
    };
    let qw: u64 = match parse_unsigned(b.as_str(), u64::MAX) {
        Some(n) => n,
        None => 0,
    };
    Some(Gpu::new(name, if qw >= ram { qw } else { ram }, "wmi"))
}

/// Parse `nvidia-smi --query-gpu=memory.total,name --format=csv,noheader,nounits`:
/// one line per card, memory in MiB.
pub fn parse_nvidia_smi(out: &str) -> (r: Vec<Gpu>)
    ensures
        gpu_views(r@) == nvidia_cards(lines(out@)),
{
    let l = lines_of(out);
    let ghost all = texts(l@);
    let mut gpus: Vec<Gpu> = Vec::new();
    let mut i: usize = 0;
    assert(gpu_views(gpus@) =~= nvidia_cards(all.subrange(0, 0)));
    while i < l.len()
        invariant
            i <= l@.len(),
            all == texts(l@),
            gpu_views(gpus@) == nvidia_cards(all.subrange(0, i as int)),
        decreases l@.len() - i,
    {
        assert(all.subrange(0, i + 1).drop_last() =~= all.subrange(0, i as int));
        assert(all.subrange(0, i + 1).last() == l@[i as int]@);
        let ghost prev = gpus@;
        if let Some(g) = nvidia_card(l[i].as_str()) {
            gpus.push(g);
            assert(gpu_views(gpus@) =~= gpu_views(prev).push(g@));
        }
        i += 1;
    }
    assert(all.subrange(0, i as int) =~= all);
    gpus
}

/// Parse the `name|adapterram|qwmemorysize` lines of the Windows probe.
///
/// The adapter's own field has 32 bits and saturates near 4 GB, so the
/// registry's figure is preferred and the other is only a floor.
pub fn parse_windows(out: &str) -> (r: Vec<Gpu>)
    ensures
        gpu_views(r@) == windows_cards(lines(out@)),
{
    let l = lines_of(out);
    let ghost all = texts(l@);
    let mut gpus: Vec<Gpu> = Vec::new();
    let mut i: usize = 0;
    assert(gpu_views(gpus@) =~= windows_cards(all.subrange(0, 0)));
    while i < l.len()
        invariant
            i <= l@.len(),
            all == texts(l@),
            gpu_views(gpus@) == windows_cards(all.subrange(0, i as int)),
        decreases l@.len() - i,
    {
        assert(all.subrange(0, i + 1).drop_last() =~= all.subrange(0, i as int));
        assert(all.subrange(0, i + 1).last() == l@[i as int]@);
        let ghost prev = gpus@;
        if let Some(g) = windows_card(l[i].as_str()) {
            gpus.push(g);
            assert(gpu_views(gpus@) =~= gpu_views(prev).push(g@));
        }
        i += 1;
    }
    assert(all.subrange(0, i as int) =~= all);
    gpus
}

/// One more line of `system_profiler`: a chipset starts an entry, and a core
/// count belongs to the entry before it.
pub open spec fn profiler_step(v: Seq<GpuView>, line: Seq<char>) -> Seq<GpuView> {
    let t = trim(line);
    match after_prefix(t, "Chipset Model:"@) {
        Some(name) => v.push(adapter(trim(name), 0, "system_profiler"@)),
        None => match after_prefix(t, "Total Number of Cores:"@) {
            Some(n) => match unsigned(trim(n), u32::MAX as nat) {
                Some(c) => if v.len() > 0 {
                    v.update(v.len() - 1, GpuView { cores: Some(c as u32), ..v.last() })
                } else {
                    v
                },
                None => v,
            },
            None => v,
        },
    }
}

pub open spec fn profiler_cards(l: Seq<Seq<char>>) -> Seq<GpuView>
    decreases l.len(),
{
    if l.len() == 0 {
        Seq::empty()
    } else {
        profiler_step(profiler_cards(l.drop_last()), l.last())
    }
}

/// One entry per `Chipset Model:` of the `system_profiler` text. A virtual
/// machine's adapter has no core count, which is the whole point.
pub fn parse_profiler(out: &str) -> (r: Vec<Gpu>)
    ensures
        gpu_views(r@) == profiler_cards(lines(out@)),
{
    let l = lines_of(out);
    let ghost all = texts(l@);
    let mut gpus: Vec<Gpu> = Vec::new();
    let mut i: usize = 0;
    assert(gpu_views(gpus@) =~= profiler_cards(all.subrange(0, 0)));
    while i < l.len()
        invariant
            i <= l@.len(),
            all == texts(l@),
            gpu_views(gpus@) == profiler_cards(all.subrange(0, i as int)),
        decreases l@.len() - i,
    {
        assert(all.subrange(0, i + 1).drop_last() =~= all.subrange(0, i as int));
        assert(all.subrange(0, i + 1).last() == l@[i as int]@);
        let ghost prev = gpus@;
        let t = trimmed(l[i].as_str());
        if let Some(name) = without_prefix(t.as_str(), "Chipset Model:") {
            let g = Gpu::new(trimmed(name.as_str()), 0, "system_profiler");
            gpus.push(g);
            assert(gpu_views(gpus@) =~= gpu_views(prev).push(g@));
        } else if let Some(n) = without_prefix(t.as_str(), "Total Number of Cores:") {
            let number = trimmed(n.as_str());
            if let Some(c) = parse_unsigned(number.as_str(), u32::MAX as u64) {
                if let Some(mut g) = gpus.pop() {
                    g.cores = Some(c as u32);
                    gpus.push(g);
                    assert(gpu_views(gpus@) =~= gpu_views(prev).update(
                        prev.len() - 1,
                        GpuView { cores: Some(c as u32), ..gpu_views(prev).last() },
                    ));
                } else {
                    assert(gpu_views(gpus@) =~= gpu_views(prev));
                }
            }
        }
        i += 1;
    }
    assert(all.subrange(0, i as int) =~= all);
    gpus
}

/// The last position where `p` stands in `s`.
pub open spec fn find_last(s: Seq<char>, p: Seq<char>, upto: int) -> Option<int>
    decreases upto,
{
    if upto <= 0 {
        None
    } else if occurs_at(s, p, upto - 1) {
        Some(upto - 1)
    } else {
        find_last(s, p, upto - 1)
    }
}

/// A line of `lspci -nnD`: the address, and the name between the class and
/// the numbers in square brackets.
pub open spec fn lspci_line(line: Seq<char>) -> Option<(Seq<char>, Seq<char>)> {
    match cut(line, ' ') {
        None => None,
        Some((addr, rest)) => match crate::chars::find(rest, ": "@, 0) {
            None => None,
            Some(i) => {
                let tail = rest.subrange(i + 2, rest.len() as int);
                match find_last(tail, " ["@, tail.len() as int) {
                    Some(k) => Some((addr, trim(tail.subrange(0, k)))),
                    None => Some((addr, trim(tail))),
                }
            },
        },
    }
}

/// The name that the lines give the address; the last one counts.
pub open spec fn lspci_name(l: Seq<Seq<char>>, addr: Seq<char>) -> Option<Seq<char>>
    decreases l.len(),
{
    if l.len() == 0 {
        None
    } else {
        match lspci_line(l.last()) {
            Some((a, name)) => if a == addr {
                Some(name)
            } else {
                lspci_name(l.drop_last(), addr)
            },
            None => lspci_name(l.drop_last(), addr),
        }
    }
}

fn lspci_entry(line: &str) -> (r: Option<(String, String)>)
    ensures
        match r {
            Some((a, n)) => lspci_line(line@) == Some((a@, n@)),
            None => lspci_line(line@) is None,
        },
{
    let (addr, rest) = match cut_at(line, ' ') {
        Some(x) => x,
        None => return None,
    };
    let v = chars_of(rest.as_str());
    let sep = chars_of(": ");
    let i: usize = match find_chars(&v, &sep, 0) {
        Some(i) => i,
        None => return None,
    };
    proof {
        reveal_strlit(": ");
        crate::chars::lemma_find(v@, sep@, 0);
    }
    let n: usize = v.len();
    assert(i + 2 <= n);
    let tail = string_of(&v, i + 2, n);
    let t = chars_of(tail.as_str());
    let open = chars_of(" [");
    let mut k: usize = t.len();
    while k > 0
        invariant
            k <= t@.len(),
            open@ == " ["@,
            t@ == tail@,
            find_last(t@, open@, k as int) == find_last(t@, open@, t@.len() as int),
            cut(line@, ' ') == Some((addr@, rest@)),
            v@ == rest@,
            crate::chars::find(rest@, ": "@, 0) == Some(i as int),
            tail@ == rest@.subrange(i + 2, rest@.len() as int),
        decreases k,
    {
        k -= 1;
        if crate::chars::at(&t, &open, k) {
            let name = string_of(&t, 0, k);
            return Some((addr, trimmed(name.as_str())));
        }
    }
    Some((addr, trimmed(tail.as_str())))
}

/// The marketing name of the device at a PCI address, out of `lspci -nnD`.
pub fn lspci_names(out: &str, addr: &str) -> (r: Option<String>)
    ensures
        match r {
            Some(n) => lspci_name(lines(out@), addr@) == Some(n@),
            None => lspci_name(lines(out@), addr@) is None,
        },
{
    let l = lines_of(out);
    let ghost all = texts(l@);
    let mut i: usize = l.len();
    assert(all.subrange(0, i as int) =~= all);
    while i > 0
        invariant
            i <= l@.len(),
            all == texts(l@),
            all == lines(out@),
            lspci_name(all.subrange(0, i as int), addr@) == lspci_name(all, addr@),
        decreases i,
    {
        assert(all.subrange(0, i as int).drop_last() =~= all.subrange(0, i - 1));
        assert(all.subrange(0, i as int).last() == l@[i - 1]@);
        i -= 1;
        if let Some((a, name)) = lspci_entry(l[i].as_str()) {
            if same(a.as_str(), addr) {
                return Some(name);
            }
        }
    }
    None
}

/// A name under `/sys/class/drm` that is a device rather than a connector.
pub fn is_card(name: &str) -> (r: bool)
    ensures
        r == (starts_with(name@, "card"@) && !contains(name@, "-"@)),
{
    crate::chars::begins(name, "card") && !mentions(name, "-")
}

/// A number as sysfs writes it: identifiers in hex with a prefix, sizes in
/// decimal.
pub open spec fn sysfs_number(s: Seq<char>) -> Option<nat> {
    match after_prefix(trim(s), "0x"@) {
        Some(h) => hex_unsigned(h, u64::MAX as nat),
        None => unsigned(trim(s), u64::MAX as nat),
    }
}

pub fn parse_sysfs_number(s: &str) -> (r: Option<u64>)
    ensures
        match r {
            Some(n) => sysfs_number(s@) == Some(n as nat),
            None => sysfs_number(s@) is None,
        },
{
    let t = trimmed(s);
    match without_prefix(t.as_str(), "0x") {
        Some(h) => parse_hex(h.as_str()),
        None => parse_unsigned(t.as_str(), u64::MAX),
    }
}

/// What has to be read of a card to learn its VRAM.
#[derive(Debug, Clone, Copy, PartialEq, Eq, Structural)]
pub enum VramSource {
    /// amdgpu's own file.
    AmdVramTotal,
    /// Intel's two drivers disagree on the path.
    IntelTileOrLmem,
    /// Not in sysfs.
    Elsewhere,
}

pub fn vram_source(vendor: u64) -> (r: VramSource)
    ensures
        r == (if vendor == 0x1002 {
            VramSource::AmdVramTotal
        } else if vendor == 0x8086 {
            VramSource::IntelTileOrLmem
        } else {
            VramSource::Elsewhere
        }),
{
    if vendor == 0x1002 {
        VramSource::AmdVramTotal
    } else if vendor == 0x8086 {
        VramSource::IntelTileOrLmem
    } else {
        VramSource::Elsewhere
    }
}

/// The card that sysfs describes, by its vendor, the memory it states and the
/// name its address has.
pub fn sysfs_card(vendor: u64, vram: Option<u64>, name: Option<String>) -> (r: Option<Gpu>)
    ensures
        match r {
            Some(g) => (vendor == 0x1002 || vendor == 0x8086) && g@ == adapter(
                match name {
                    Some(n) => n@,
                    None => if vendor == 0x1002 {
                        "AMD Radeon Graphics"@
                    } else {
                        "Intel Graphics"@
                    },
                },
                match vram {
                    Some(v) => v as nat,
                    None => 0,
                },
                "sysfs"@,
            ),
            None => vendor != 0x1002 && vendor != 0x8086,
        },
{
    let known = match name {
        Some(n) => n,
        None => if vendor == 0x1002 {
            copy("AMD Radeon Graphics")
        } else {
            copy("Intel Graphics")
        },
    };
    let bytes: u64 = match vram {
        Some(v) => v,
        None => 0,
    };
    if vendor == 0x1002 || vendor == 0x8086 {
        Some(Gpu::new(known, bytes, "sysfs"))
    } else {
        None
    }
}

// ------------------------------------------------------------------ detecting

/// What `nvidia-smi` printed, if it ran.
pub open spec fn nvidia_in(smi: Option<Seq<char>>) -> Seq<GpuView> {
    match smi {
        Some(t) => nvidia_cards(lines(t)),
        None => Seq::empty(),
    }
}

fn nvidia(smi: Option<&str>) -> (r: Vec<Gpu>)
    ensures
        gpu_views(r@) == nvidia_in(opt_str(smi)),
{
    match smi {
        Some(t) => parse_nvidia_smi(t),
        None => {
            let v: Vec<Gpu> = Vec::new();
            assert(gpu_views(v@) =~= Seq::<GpuView>::empty());
            v
        },
    }
}

/// The adapters of a Linux machine: what `nvidia-smi` names, then the cards of
/// other vendors.
pub fn detect_linux(smi: Option<&str>, cards: Vec<Gpu>) -> (r: Vec<Gpu>)
    ensures
        gpu_views(r@) == nvidia_in(opt_str(smi)) + gpu_views(cards@),
{
    let mut v = nvidia(smi);
    let ghost first = v@;
    let mut more = cards;
    v.append(&mut more);
    assert(gpu_views(v@) =~= gpu_views(first) + gpu_views(cards@));
    v
}

/// The adapters of a Windows machine. `nvidia-smi` is right about VRAM without
/// the registry, so where it names any card the rest is not asked for.
pub fn detect_windows(smi: Option<&str>, wmi: Option<&str>) -> (r: Vec<Gpu>)
    ensures
        gpu_views(r@) == (if nvidia_in(opt_str(smi)).len() > 0 {
            nvidia_in(opt_str(smi))
        } else {
            match wmi {
                Some(t) => windows_cards(lines(t@)),
                None => Seq::empty(),
            }
        }),
{
    let v = nvidia(smi);
    assert(gpu_views(v@).len() == v@.len());
    if v.len() > 0 {
        return v;
    }
    match wmi {
        Some(t) => parse_windows(t),
        None => {
            assert(gpu_views(v@) =~= Seq::<GpuView>::empty());
            v
        },
    }
}

} // verus!
