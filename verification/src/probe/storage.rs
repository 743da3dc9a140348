//! Storage: the volume the model files live on, which is what inference
//! streams from.

use vstd::prelude::*;
use crate::chars::{
    begins, below, chars_of, concat3, contains, copy, ends_with, lines, lines_of, mentions, path_below, replace, replaced, same, split,
    split_on, starts_with, string_of, texts, trim, trimmed, words, words_of,
};
use crate::probe::{human, human_text};
use vstd::utf8::encode_utf8;

verus! {

#[derive(Debug, Clone, Copy, PartialEq, Eq, Structural)]
pub enum Medium {
    Nvme,
    Ssd,
    Rotational,
    Network,
    Unknown,
}

impl Medium {
    pub open spec fn label_text(self) -> Seq<char> {
        match self {
            Medium::Nvme => "NVMe"@,
            Medium::Ssd => "SSD"@,
            Medium::Rotational => "rotational"@,
            Medium::Network => "network"@,
            Medium::Unknown => "unknown"@,
        }
    }

    /// How the medium is shown.
    pub fn label(self) -> (r: &'static str)
        ensures
            r@ == self.label_text(),
    {
        match self {
            Medium::Nvme => "NVMe",
            Medium::Ssd => "SSD",
            Medium::Rotational => "rotational",
            Medium::Network => "network",
            Medium::Unknown => "unknown",
        }
    }

    pub open spec fn name_text(self) -> Seq<char> {
        match self {
            Medium::Nvme => "Nvme"@,
            Medium::Ssd => "Ssd"@,
            Medium::Rotational => "Rotational"@,
            Medium::Network => "Network"@,
            Medium::Unknown => "Unknown"@,
        }
    }

    /// The medium's name, for fingerprints and bug reports.
    pub fn name(self) -> (r: &'static str)
        ensures
            r@ == self.name_text(),
    {
        match self {
            Medium::Nvme => "Nvme",
            Medium::Ssd => "Ssd",
            Medium::Rotational => "Rotational",
            Medium::Network => "Network",
            Medium::Unknown => "Unknown",
        }
    }
}

pub enum Hazard {
    /// OneDrive / iCloud / Dropbox / Google Drive. Files may be stubs that
    /// re-download on read; throughput is unpredictable and writes sync.
    CloudSync(String),
    /// SMB/NFS/AFP. Bandwidth is the network, not the disk.
    NetworkMount(String),
    /// Removable. Often far slower than internal.
    Removable,
    /// Spinning disk. Random reads collapse to about 1% of an SSD.
    Rotational,
    /// Not enough free space to hold a useful model.
    LowSpace(u64),
}

/// What a [`Hazard`] says.
pub enum HazardView {
    CloudSync(Seq<char>),
    NetworkMount(Seq<char>),
    Removable,
    Rotational,
    LowSpace(nat),
}

impl View for Hazard {
    type V = HazardView;

    open spec fn view(&self) -> HazardView {
        match self {
            Hazard::CloudSync(s) => HazardView::CloudSync(s@),
            Hazard::NetworkMount(s) => HazardView::NetworkMount(s@),
            Hazard::Removable => HazardView::Removable,
            Hazard::Rotational => HazardView::Rotational,
            Hazard::LowSpace(b) => HazardView::LowSpace(*b as nat),
        }
    }
}

pub open spec fn hazard_views(v: Seq<Hazard>) -> Seq<HazardView> {
    v.map_values(|h: Hazard| h@)
}

/// A hazard in words.
pub open spec fn hazard_text(h: HazardView) -> Seq<char> {
    match h {
        HazardView::CloudSync(p) => "model directory is synced by "@ + p
            + " - files may be stubs that re-download on read"@,
        HazardView::NetworkMount(f) => "model directory is a network mount ("@ + f
            + ") - bandwidth is the network, not the disk"@,
        HazardView::Removable => "model directory is on removable storage - often far slower than internal"@,
        HazardView::Rotational => "model directory is on a spinning disk - random reads collapse to ~1% of an SSD"@,
        HazardView::LowSpace(b) => "only "@ + human_text(b) + " free on the model volume"@,
    }
}

impl Hazard {
    pub fn text(&self) -> (r: String)
        ensures
            r@ == hazard_text(self@),
    {
        match self {
            Hazard::CloudSync(p) => concat3(
                "model directory is synced by ",
                p.as_str(),
                " - files may be stubs that re-download on read",
            ),
            Hazard::NetworkMount(f) => concat3(
                "model directory is a network mount (",
                f.as_str(),
                ") - bandwidth is the network, not the disk",
            ),
            Hazard::Removable => copy("model directory is on removable storage - often far slower than internal"),
            Hazard::Rotational => copy(
                "model directory is on a spinning disk - random reads collapse to ~1% of an SSD",
            ),
            Hazard::LowSpace(b) => concat3("only ", human(*b).as_str(), " free on the model volume"),
        }
    }
}

pub struct Storage {
    /// Directory whose volume was profiled.
    pub model_dir: String,
    /// Mount point of that volume.
    pub mount: String,
    pub fstype: String,
    pub medium: Medium,
    pub total: u64,
    pub free: u64,
    pub hazards: Vec<Hazard>,
    /// An existing large file to benchmark against, so nothing is written.
    pub bench_file: Option<String>,
    /// True when `bench_file` is an actual model file.
    pub bench_is_weight: bool,
    /// Where the model directory came from.
    pub source: &'static str,
}

// ------------------------------------------------------------ benchmark file

/// Smallest file to benchmark against. Random offsets need enough span that
/// the drive cannot serve everything from its own cache.
pub const MIN_BENCH_BYTES: u64 = 536_870_912;

/// A file name has the extension `ext`: something, a dot, and the extension.
pub open spec fn has_extension(name: Seq<char>, ext: Seq<char>) -> bool {
    ends_with(name, seq!['.'] + ext) && name.len() > ext.len() + 1
}

/// A file of model weights, by its name: by extension, or a blob that is named
/// by its digest.
pub open spec fn weight_name(name: Seq<char>) -> bool {
    has_extension(name, "gguf"@) || has_extension(name, "safetensors"@) || starts_with(name, "sha256"@)
}

/// Whether a file name has that extension: a name of nothing else has none.
pub fn extension_is(name: &str, ext: &str) -> (r: bool)
    ensures
        r == has_extension(name@, ext@),
{
    let mut p = String::new();
    p.push('.');
    p.append(ext);
    assert(p@ =~= seq!['.'] + ext@);
    if !crate::chars::ends(name, p.as_str()) {
        return false;
    }
    let n: usize = name.unicode_len();
    let m: usize = p.as_str().unicode_len();
    n > m
}

/// Whether a file of this name holds weights. Runtimes that store blobs give
/// them no extension, so name and extension are both signals.
pub fn is_weight_file(name: &str) -> (r: bool)
    ensures
        r == weight_name(name@),
{
    extension_is(name, "gguf") || extension_is(name, "safetensors") || begins(name, "sha256")
}

/// A file to benchmark against, and its size.
pub struct Candidate {
    pub path: String,
    pub bytes: u64,
}

/// What a [`Candidate`] holds.
pub open spec fn candidate_view(c: Option<Candidate>) -> Option<(Seq<char>, nat)> {
    match c {
        Some(x) => Some((x.path@, x.bytes as nat)),
        None => None,
    }
}

/// The larger of what was found and what comes up; the earlier of two alike.
pub open spec fn larger_of(best: Option<(Seq<char>, nat)>, next: Option<(Seq<char>, nat)>) -> Option<(Seq<char>, nat)> {
    match (best, next) {
        (Some(b), Some(n)) => if n.1 > b.1 {
            next
        } else {
            best
        },
        (None, n) => n,
        (b, None) => b,
    }
}

pub fn larger(best: Option<Candidate>, next: Option<Candidate>) -> (r: Option<Candidate>)
    ensures
        candidate_view(r) == larger_of(candidate_view(best), candidate_view(next)),
{
    match (best, next) {
        (Some(b), Some(n)) => if n.bytes > b.bytes {
            Some(n)
        } else {
            Some(b)
        },
        (None, n) => n,
        (b, None) => b,
    }
}

/// What a directory walk has found so far: the largest weight file and the
/// largest file of any kind.
pub struct BenchTarget {
    pub weight: Option<Candidate>,
    pub any: Option<Candidate>,
}

impl BenchTarget {
    pub fn none() -> (r: BenchTarget)
        ensures
            r.weight is None,
            r.any is None,
    {
        BenchTarget { weight: None, any: None }
    }

    /// A file comes up: it counts from [`MIN_BENCH_BYTES`] on.
    pub fn with_file(self, name: &str, path: String, bytes: u64) -> (r: BenchTarget)
        ensures
            ({
                let f = if bytes >= MIN_BENCH_BYTES { Some((path@, bytes as nat)) } else { None };
                &&& candidate_view(r.any) == larger_of(candidate_view(self.any), f)
                &&& candidate_view(r.weight) == larger_of(
                    candidate_view(self.weight),
                    if weight_name(name@) { f } else { None },
                )
            }),
    {
        if bytes < MIN_BENCH_BYTES {
            return self;
        }
        let weight = if is_weight_file(name) {
            larger(self.weight, Some(Candidate { path: copy(path.as_str()), bytes }))
        } else {
            self.weight
        };
        BenchTarget { weight, any: larger(self.any, Some(Candidate { path, bytes })) }
    }

    /// What a subdirectory holds comes up.
    pub fn with_directory(self, inner: BenchTarget) -> (r: BenchTarget)
        ensures
            candidate_view(r.any) == larger_of(candidate_view(self.any), candidate_view(inner.any)),
            candidate_view(r.weight) == larger_of(candidate_view(self.weight), candidate_view(inner.weight)),
    {
        BenchTarget { weight: larger(self.weight, inner.weight), any: larger(self.any, inner.any) }
    }

    /// The file to use: a weight file if there is one.
    pub fn choose_file(self) -> (r: (Option<String>, bool))
        ensures
            r.1 == (self.weight is Some),
            r.0 matches Some(p) ==> candidate_view(if self.weight is Some { self.weight } else { self.any }) matches Some(
                c,
            ) && c.0 == p@,
            r.0 is None ==> self.weight is None && self.any is None,
    {
        match self.weight {
            Some(w) => (Some(w.path), true),
            None => match self.any {
                Some(a) => (Some(a.path), false),
                None => (None, false),
            },
        }
    }
}

// -------------------------------------------------------------------- hazards

/// The service that syncs a directory, by its path.
pub open spec fn provider_of(path: Seq<char>) -> Option<Seq<char>> {
    if contains(path, "OneDrive"@) {
        Some("OneDrive"@)
    } else if contains(path, "Dropbox"@) {
        Some("Dropbox"@)
    } else if contains(path, "Google Drive"@) {
        Some("Google Drive"@)
    } else if contains(path, "GoogleDrive"@) {
        Some("GoogleDrive"@)
    } else if contains(path, "Mobile Documents"@) {
        Some("iCloud Drive"@)
    } else if contains(path, "iCloud"@) {
        Some("iCloud"@)
    } else if contains(path, "pCloud"@) {
        Some("pCloud"@)
    } else if contains(path, "Nextcloud"@) {
        Some("Nextcloud"@)
    } else if contains(path, "Sync.com"@) {
        Some("Sync.com"@)
    } else {
        None
    }
}

pub fn sync_provider(path: &str) -> (r: Option<String>)
    ensures
        match r {
            Some(p) => provider_of(path@) == Some(p@),
            None => provider_of(path@) is None,
        },
{
    if mentions(path, "OneDrive") {
        Some(copy("OneDrive"))
    } else if mentions(path, "Dropbox") {
        Some(copy("Dropbox"))
    } else if mentions(path, "Google Drive") {
        Some(copy("Google Drive"))
    } else if mentions(path, "GoogleDrive") {
        Some(copy("GoogleDrive"))
    } else if mentions(path, "Mobile Documents") {
        Some(copy("iCloud Drive"))
    } else if mentions(path, "iCloud") {
        Some(copy("iCloud"))
    } else if mentions(path, "pCloud") {
        Some(copy("pCloud"))
    } else if mentions(path, "Nextcloud") {
        Some(copy("Nextcloud"))
    } else if mentions(path, "Sync.com") {
        Some(copy("Sync.com"))
    } else {
        None
    }
}

/// Free space below this holds no useful model: 8 GiB.
pub const LOW_SPACE: u64 = 8_589_934_592;

/// What is wrong with a volume as a place for models.
pub open spec fn hazards_of(path: Seq<char>, medium: Medium, fstype: Seq<char>, free: nat) -> Seq<HazardView> {
    let synced = match provider_of(path) {
        Some(p) => seq![HazardView::CloudSync(p)],
        None => Seq::empty(),
    };
    let network = if medium == Medium::Network {
        seq![HazardView::NetworkMount(fstype)]
    } else {
        Seq::empty()
    };
    let spinning = if medium == Medium::Rotational {
        seq![HazardView::Rotational]
    } else {
        Seq::empty()
    };
    let full = if free < LOW_SPACE {
        seq![HazardView::LowSpace(free)]
    } else {
        Seq::empty()
    };
    synced + network + spinning + full
}

pub fn find_hazards(path: &str, medium: Medium, fstype: &str, free: u64) -> (r: Vec<Hazard>)
    ensures
        hazard_views(r@) == hazards_of(path@, medium, fstype@, free as nat),
{
    let mut out: Vec<Hazard> = Vec::new();
    if let Some(p) = sync_provider(path) {
        out.push(Hazard::CloudSync(p));
    }
    if medium == Medium::Network {
        out.push(Hazard::NetworkMount(copy(fstype)));
    }
    if medium == Medium::Rotational {
        out.push(Hazard::Rotational);
    }
    if free < LOW_SPACE {
        out.push(Hazard::LowSpace(free));
    }
    assert(hazard_views(out@) =~= hazards_of(path@, medium, fstype@, free as nat));
    out
}

// --------------------------------------------------------------------- mounts

/// A path starts at the root.
pub open spec fn rooted(p: Seq<char>) -> bool {
    p.len() > 0 && p[0] == '/'
}

/// The names on a path: empty ones, and the current directory anywhere but at
/// the start of a relative path, do not count.
pub open spec fn names_on(parts: Seq<Seq<char>>, absolute: bool) -> Seq<Seq<char>>
    decreases parts.len(),
{
    if parts.len() == 0 {
        Seq::empty()
    } else {
        let rest = names_on(parts.drop_last(), absolute);
        if parts.last().len() == 0 || (parts.last() == seq!['.'] && (absolute || parts.len() > 1)) {
            rest
        } else {
            rest.push(parts.last())
        }
    }
}

pub open spec fn path_names(p: Seq<char>) -> Seq<Seq<char>> {
    names_on(split(p, '/'), rooted(p))
}

/// `path` is `dir` or lies below it.
pub open spec fn lies_in(path: Seq<char>, dir: Seq<char>) -> bool {
    rooted(path) == rooted(dir) && path_names(dir).is_prefix_of(path_names(path))
}

/// Two paths name the same place by the same names.
pub open spec fn same_path(a: Seq<char>, b: Seq<char>) -> bool {
    rooted(a) == rooted(b) && path_names(a) == path_names(b)
}

fn path_parts(p: &str) -> (r: (bool, Vec<String>))
    ensures
        r.0 == rooted(p@),
        texts(r.1@) == path_names(p@),
{
    let v = chars_of(p);
    let absolute = v.len() > 0 && v[0] == '/';
    let parts = split_on(p, '/');
    let ghost all = texts(parts@);
    let mut out: Vec<String> = Vec::new();
    let mut i: usize = 0;
    assert(texts(out@) =~= names_on(all.subrange(0, 0), absolute));
    while i < parts.len()
        invariant
            i <= parts@.len(),
            all == texts(parts@),
            texts(out@) == names_on(all.subrange(0, i as int), absolute),
        decreases parts@.len() - i,
    {
        let ghost cur = all.subrange(0, i + 1);
        assert(cur.drop_last() =~= all.subrange(0, i as int));
        assert(cur.last() == parts@[i as int]@);
        let t = parts[i].as_str();
        let ghost prev = out@;
        proof {
            reveal_strlit(".");
            assert("."@ =~= seq!['.']);
        }
        if t.unicode_len() == 0 || (same(t, ".") && (absolute || i > 0)) {
        } else {
            out.push(copy(t));
            assert(texts(out@) =~= texts(prev).push(t@));
        }
        i += 1;
    }
    assert(all.subrange(0, i as int) =~= all);
    (absolute, out)
}

fn names_start(a: &Vec<String>, b: &Vec<String>) -> (r: bool)
    ensures
        r == texts(a@).is_prefix_of(texts(b@)),
{
    assert(texts(a@).len() == a@.len() && texts(b@).len() == b@.len());
    if a.len() > b.len() {
        return false;
    }
    let mut i: usize = 0;
    while i < a.len()
        invariant
            i <= a@.len() <= b@.len(),
            forall|j: int| 0 <= j < i ==> texts(a@)[j] == texts(b@)[j],
        decreases a@.len() - i,
    {
        assert(texts(a@)[i as int] == a@[i as int]@);
        assert(texts(b@)[i as int] == b@[i as int]@);
        if !same(a[i].as_str(), b[i].as_str()) {
            assert(texts(b@).subrange(0, texts(a@).len() as int)[i as int] == texts(b@)[i as int]);
            return false;
        }
        i += 1;
    }
    assert(texts(b@).subrange(0, texts(a@).len() as int) =~= texts(a@));
    true
}

fn path_lies_in(path: &str, dir: &str) -> (r: bool)
    ensures
        r == lies_in(path@, dir@),
{
    let (pa, p) = path_parts(path);
    let (da, d) = path_parts(dir);
    pa == da && names_start(&d, &p)
}

fn paths_same(a: &str, b: &str) -> (r: bool)
    ensures
        r == same_path(a@, b@),
{
    let (xa, x) = path_parts(a);
    let (ya, y) = path_parts(b);
    let r = xa == ya && names_start(&x, &y) && names_start(&y, &x);
    proof {
        let p = path_names(a@);
        let q = path_names(b@);
        if p.is_prefix_of(q) && q.is_prefix_of(p) {
            assert(p.len() == q.len());
            assert(q.subrange(0, p.len() as int) =~= q);
        }
        if p == q {
            assert(q.subrange(0, p.len() as int) =~= p);
        }
    }
    r
}

/// A line of the mount table: device, mount point and file system. Spaces in a
/// mount point are written as an octal escape.
pub open spec fn mount_line(line: Seq<char>) -> Option<(Seq<char>, Seq<char>, Seq<char>)> {
    let w = words(line);
    if w.len() >= 3 {
        Some((w[0], replaced(w[1], "\\040"@, " "@), w[2]))
    } else {
        None
    }
}

/// The length of a text in bytes.
pub open spec fn byte_len(s: Seq<char>) -> usize {
    encode_utf8(s).len() as usize
}

/// The mount a path lies on: the longest mount point above it, the earlier of
/// two alike. A line that cannot be read ends the reading with nothing.
pub open spec fn mount_of(path: Seq<char>, l: Seq<Seq<char>>) -> Option<Option<(Seq<char>, Seq<char>)>>
    decreases l.len(),
{
    if l.len() == 0 {
        Some(None)
    } else {
        match (mount_of(path, l.drop_last()), mount_line(l.last())) {
            (Some(best), Some((dev, mp, fs))) => if lies_in(path, mp) && (match best {
                Some(b) => byte_len(mp) > byte_len(b.0),
                None => true,
            }) {
                Some(Some((mp, fs)))
            } else {
                Some(best)
            },
            _ => None,
        }
    }
}

/// File systems that are a network's.
pub open spec fn remote_fs(fs: Seq<char>) -> bool {
    fs == "nfs"@ || fs == "nfs4"@ || fs == "cifs"@ || fs == "smb3"@ || fs == "fuse.sshfs"@ || fs == "afs"@ || fs == "9p"@
}

fn words3(line: &str) -> (r: Option<(String, String, String)>)
    ensures
        match r {
            Some((a, b, c)) => mount_line(line@) == Some((a@, b@, c@)),
            None => mount_line(line@) is None,
        },
{
    let w = words_of(line);
    assert(texts(w@).len() == w@.len());
    if w.len() < 3 {
        return None;
    }
    assert(texts(w@)[0] == w@[0]@ && texts(w@)[1] == w@[1]@ && texts(w@)[2] == w@[2]@);
    proof {
        reveal_strlit("\\040");
    }
    Some((copy(w[0].as_str()), replace(w[1].as_str(), "\\040", " "), copy(w[2].as_str())))
}

proof fn lemma_mount_stops(path: Seq<char>, l: Seq<Seq<char>>, k: int)
    requires
        0 <= k <= l.len(),
        mount_of(path, l.subrange(0, k)) is None,
    ensures
        mount_of(path, l) is None,
    decreases l.len() - k,
{
    if k < l.len() {
        assert(l.drop_last().subrange(0, k) =~= l.subrange(0, k));
        lemma_mount_stops(path, l.drop_last(), k);
    } else {
        assert(l.subrange(0, k) =~= l);
    }
}

/// The mount point and file system of the volume a path lies on, and whether
/// that is a local one, out of `/proc/mounts`.
pub fn mount_for(path: &str, mounts: &str) -> (r: Option<(String, String, bool)>)
    ensures
        match r {
            Some((mp, fs, local)) => mount_of(path@, lines(mounts@)) == Some(Some((mp@, fs@))) && local == !remote_fs(
                fs@,
            ),
            None => mount_of(path@, lines(mounts@)) is None || mount_of(path@, lines(mounts@)) == Some(
                None::<(Seq<char>, Seq<char>)>,
            ),
        },
{
    let l = lines_of(mounts);
    let ghost all = texts(l@);
    let mut best: Option<(String, String)> = None;
    let mut i: usize = 0;
    while i < l.len()
        invariant
            i <= l@.len(),
            all == texts(l@),
            all == lines(mounts@),
            mount_of(path@, all.subrange(0, i as int)) == Some(
                match best {
                    Some((m, f)) => Some((m@, f@)),
                    None => None,
                },
            ),
        decreases l@.len() - i,
    {
        assert(all.subrange(0, i + 1).drop_last() =~= all.subrange(0, i as int));
        assert(all.subrange(0, i + 1).last() == l@[i as int]@);
        match words3(l[i].as_str()) {
            None => {
                proof {
                    lemma_mount_stops(path@, all, i + 1);
                }
                return None;
            },
            Some((dev, mp, fs)) => {
                if path_lies_in(path, mp.as_str()) {
                    let longer = match &best {
                        Some((m, f)) => mp.as_str().len() > m.as_str().len(),
                        None => true,
                    };
                    if longer {
                        best = Some((mp, fs));
                    }
                }
            },
        }
        i += 1;
    }
    assert(all.subrange(0, i as int) =~= all);
    match best {
        Some((mp, fs)) => {
            let t = fs.as_str();
            let local = !(same(t, "nfs") || same(t, "nfs4") || same(t, "cifs") || same(t, "smb3") || same(t, "fuse.sshfs")
                || same(t, "afs") || same(t, "9p"));
            Some((mp, fs, local))
        },
        None => None,
    }
}

/// What Windows' drive type says of a volume: how its file system is named, and
/// whether it is local.
pub fn windows_volume_kind(dtype: u32) -> (r: (&'static str, bool))
    ensures
        r.0@ == (if dtype == 2 {
            "removable"@
        } else if dtype == 3 {
            "fixed"@
        } else if dtype == 4 {
            "remote"@
        } else {
            "unknown"@
        }),
        r.1 == (dtype != 4),
{
    let name = match dtype {
        2 => "removable",
        3 => "fixed",
        4 => "remote",
        _ => "unknown",
    };
    (name, dtype != 4)
}

/// A medium reached over a network.
pub open spec fn network_medium(fs: Seq<char>, local: bool) -> bool {
    !local || fs == "nfs"@ || fs == "nfs4"@ || fs == "cifs"@ || fs == "smb3"@ || fs == "remote"@ || fs == "afpfs"@
}

pub fn is_network(fstype: &str, local: bool) -> (r: bool)
    ensures
        r == network_medium(fstype@, local),
{
    !local || same(fstype, "nfs") || same(fstype, "nfs4") || same(fstype, "cifs") || same(fstype, "smb3") || same(
        fstype,
        "remote",
    ) || same(fstype, "afpfs")
}

/// What follows `/dev/`, however often it stands at the start.
pub open spec fn device_name(d: Seq<char>) -> Seq<char>
    decreases d.len(),
{
    if "/dev/"@.len() > 0 && starts_with(d, "/dev/"@) {
        device_name(d.subrange("/dev/"@.len() as int, d.len() as int))
    } else {
        d
    }
}

/// What a mount's device says of its medium.
pub enum DeviceMedium {
    /// The name says it all.
    Nvme,
    /// The named block device's `queue/rotational` file decides.
    AskBlockDevice(String),
}

/// What a [`DeviceMedium`] says.
pub enum DeviceView {
    Nvme,
    AskBlockDevice(Seq<char>),
}

impl View for DeviceMedium {
    type V = DeviceView;

    open spec fn view(&self) -> DeviceView {
        match self {
            DeviceMedium::Nvme => DeviceView::Nvme,
            DeviceMedium::AskBlockDevice(s) => DeviceView::AskBlockDevice(s@),
        }
    }
}

/// What `char::is_numeric` says of a character.
pub uninterp spec fn numeric(c: char) -> bool;

/// `char::is_numeric`: whether the character is one of the Unicode categories
/// of numbers, which depends on the character alone. The ASCII digits are, and
/// no other ASCII character is.
#[verifier::external_body]
fn is_numeric(c: char) -> (r: bool)
    ensures
        r == numeric(c),
        '0' <= c <= '9' ==> r,
        c < '0' || ('9' < c && c <= '\u{7f}') ==> !r,
{
    c.is_numeric()
}

/// `s` without the numbers at its end.
pub open spec fn without_number(s: Seq<char>) -> Seq<char>
    decreases s.len(),
{
    if s.len() > 0 && numeric(s.last()) {
        without_number(s.drop_last())
    } else {
        s
    }
}

pub open spec fn device_medium(dev: Seq<char>) -> DeviceView {
    if starts_with(device_name(dev), "nvme"@) {
        DeviceView::Nvme
    } else {
        DeviceView::AskBlockDevice(without_number(device_name(dev)))
    }
}

/// The devices mounted at `mount`, in the order of the mount table.
pub open spec fn devices_at(mount: Seq<char>, l: Seq<Seq<char>>) -> Seq<DeviceView>
    decreases l.len(),
{
    if l.len() == 0 {
        Seq::empty()
    } else {
        let rest = devices_at(mount, l.drop_last());
        let w = words(l.last());
        if w.len() >= 2 && same_path(replaced(w[1], "\\040"@, " "@), mount) {
            rest.push(device_medium(w[0]))
        } else {
            rest
        }
    }
}

fn bare_device(dev: &str) -> (r: String)
    ensures
        r@ == device_name(dev@),
{
    let v = chars_of(dev);
    let p = chars_of("/dev/");
    let mut from: usize = 0;
    proof {
        reveal_strlit("/dev/");
    }
    assert(v@.subrange(0, v@.len() as int) =~= v@);
    while crate::chars::at(&v, &p, from)
        invariant
            from <= v@.len(),
            p@ == "/dev/"@,
            p@.len() == 5,
            v@ == dev@,
            device_name(v@.subrange(from as int, v@.len() as int)) == device_name(v@),
        decreases v@.len() - from,
    {
        let ghost cur = v@.subrange(from as int, v@.len() as int);
        assert(cur.subrange(0, 5) =~= v@.subrange(from as int, from + 5));
        assert(cur.subrange(5, cur.len() as int) =~= v@.subrange(from + 5, v@.len() as int));
        let n: usize = v.len();
        assert(from + 5 <= n);
        from = from + 5;
    }
    let ghost cur = v@.subrange(from as int, v@.len() as int);
    proof {
        if starts_with(cur, "/dev/"@) {
            assert(v@.subrange(from as int, from + 5) =~= cur.subrange(0, 5));
        }
    }
    string_of(&v, from, v.len())
}

fn device_of(dev: &str) -> (r: DeviceMedium)
    ensures
        r@ == device_medium(dev@),
{
    let base = bare_device(dev);
    if begins(base.as_str(), "nvme") {
        return DeviceMedium::Nvme;
    }
    let v = chars_of(base.as_str());
    let mut to: usize = v.len();
    assert(v@.subrange(0, to as int) =~= v@);
    while to > 0 && is_numeric(v[to - 1])
        invariant
            to <= v@.len(),
            without_number(v@.subrange(0, to as int)) == without_number(v@),
        decreases to,
    {
        assert(v@.subrange(0, to as int).drop_last() =~= v@.subrange(0, to - 1));
        assert(v@.subrange(0, to as int).last() == v@[to - 1]);
        to -= 1;
    }
    assert(to > 0 ==> v@.subrange(0, to as int).last() == v@[to - 1]);
    DeviceMedium::AskBlockDevice(string_of(&v, 0, to))
}

pub open spec fn device_views(v: Seq<DeviceMedium>) -> Seq<DeviceView> {
    v.map_values(|d: DeviceMedium| d@)
}

/// The devices behind a mount point, out of `/proc/mounts`.
pub fn mount_devices(mount: &str, mounts: &str) -> (r: Vec<DeviceMedium>)
    ensures
        device_views(r@) == devices_at(mount@, lines(mounts@)),
{
    let l = lines_of(mounts);
    let ghost all = texts(l@);
    let mut out: Vec<DeviceMedium> = Vec::new();
    let mut i: usize = 0;
    assert(device_views(out@) =~= devices_at(mount@, all.subrange(0, 0)));
    proof {
        reveal_strlit("\\040");
    }
    while i < l.len()
        invariant
            i <= l@.len(),
            "\\040"@.len() == 4,
            all == texts(l@),
            device_views(out@) == devices_at(mount@, all.subrange(0, i as int)),
        decreases l@.len() - i,
    {
        assert(all.subrange(0, i + 1).drop_last() =~= all.subrange(0, i as int));
        assert(all.subrange(0, i + 1).last() == l@[i as int]@);
        let w = words_of(l[i].as_str());
        assert(texts(w@).len() == w@.len());
        let ghost prev = out@;
        if w.len() >= 2 {
            assert(texts(w@)[0] == w@[0]@ && texts(w@)[1] == w@[1]@);
            let mp = replace(w[1].as_str(), "\\040", " ");
            if paths_same(mp.as_str(), mount) {
                let d = device_of(w[0].as_str());
                out.push(d);
                assert(device_views(out@) =~= device_views(prev).push(d@));
            }
        }
        i += 1;
    }
    assert(all.subrange(0, i as int) =~= all);
    out
}

/// The medium, given what the block devices that were asked said: the first
/// device that is known decides.
pub open spec fn medium_by(devices: Seq<DeviceView>, answers: Seq<Option<Seq<char>>>) -> Medium
    decreases devices.len(),
{
    if devices.len() == 0 {
        Medium::Unknown
    } else {
        match devices[0] {
            DeviceView::Nvme => Medium::Nvme,
            DeviceView::AskBlockDevice(_) => match (if answers.len() > 0 { answers[0] } else { None }) {
                Some(t) => if trim(t) == "1"@ {
                    Medium::Rotational
                } else {
                    Medium::Ssd
                },
                None => medium_by(
                    devices.subrange(1, devices.len() as int),
                    if answers.len() > 0 { answers.subrange(1, answers.len() as int) } else { answers },
                ),
            },
        }
    }
}

pub open spec fn opt_texts(v: Seq<Option<String>>) -> Seq<Option<Seq<char>>> {
    v.map_values(|o: Option<String>| crate::fit::opt_text(o))
}

/// Classify the medium of a local volume on Linux by its devices and by what
/// the `queue/rotational` file of each says, if it could be read.
pub fn classify(devices: &Vec<DeviceMedium>, answers: &Vec<Option<String>>) -> (r: Medium)
    requires
        devices@.len() == answers@.len(),
    ensures
        r == medium_by(device_views(devices@), opt_texts(answers@)),
{
    let ghost d = device_views(devices@);
    let ghost a = opt_texts(answers@);
    let mut i: usize = 0;
    assert(d.subrange(0, d.len() as int) =~= d);
    assert(a.subrange(0, a.len() as int) =~= a);
    while i < devices.len()
        invariant
            i <= devices@.len() == answers@.len(),
            d == device_views(devices@),
            a == opt_texts(answers@),
            medium_by(d.subrange(i as int, d.len() as int), a.subrange(i as int, a.len() as int)) == medium_by(d, a),
        decreases devices@.len() - i,
    {
        let ghost ds = d.subrange(i as int, d.len() as int);
        let ghost xs = a.subrange(i as int, a.len() as int);
        assert(ds[0] == devices@[i as int]@);
        assert(xs[0] == crate::fit::opt_text(answers@[i as int]));
        assert(ds.subrange(1, ds.len() as int) =~= d.subrange(i + 1, d.len() as int));
        assert(xs.subrange(1, xs.len() as int) =~= a.subrange(i + 1, a.len() as int));
        match &devices[i] {
            DeviceMedium::Nvme => return Medium::Nvme,
            DeviceMedium::AskBlockDevice(_) => {
                if let Some(t) = &answers[i] {
                    let x = trimmed(t.as_str());
                    return if same(x.as_str(), "1") {
                        Medium::Rotational
                    } else {
                        Medium::Ssd
                    };
                }
            },
        }
        i += 1;
    }
    Medium::Unknown
}

// --------------------------------------------------------------- the volume

/// A directory that may hold models, and how it was found.
pub struct ModelDir {
    pub path: String,
    pub source: &'static str,
}

pub open spec fn dir_view(d: ModelDir) -> (Seq<char>, Seq<char>) {
    (d.path@, d.source@)
}

pub open spec fn dir_views(v: Seq<ModelDir>) -> Seq<(Seq<char>, Seq<char>)> {
    v.map_values(|d: ModelDir| dir_view(d))
}

/// What was asked for by name, then what real runtimes use, then the home
/// directory itself.
pub open spec fn model_dirs(home: Seq<char>, named: Option<Seq<char>>, ollama: Option<Seq<char>>, windows: bool) -> Seq<(Seq<char>, Seq<char>)> {
    (match named {
        Some(p) => seq![(p, "ZC_MODEL_DIR"@)],
        None => Seq::empty(),
    }) + (match ollama {
        Some(p) => seq![(p, "OLLAMA_MODELS"@)],
        None => Seq::empty(),
    }) + seq![
        (below(home, ".ollama/models"@, windows), "ollama"@),
        (below(home, ".lmstudio/models"@, windows), "lm studio"@),
        (below(home, ".cache/lm-studio/models"@, windows), "lm studio"@),
        (below(home, ".cache/huggingface/hub"@, windows), "huggingface"@),
        (below(home, ".local/share/models"@, windows), "local"@),
        (home, "home (no runtime found)"@),
    ]
}

/// Directories real runtimes use, in the order they are preferred.
pub fn candidate_dirs(home: &str, named: Option<&str>, ollama: Option<&str>, windows: bool) -> (r: Vec<ModelDir>)
    ensures
        dir_views(r@) == model_dirs(home@, crate::report::opt_str(named), crate::report::opt_str(ollama), windows),
{
    let mut v: Vec<ModelDir> = Vec::new();
    if let Some(p) = named {
        v.push(ModelDir { path: copy(p), source: "ZC_MODEL_DIR" });
    }
    if let Some(p) = ollama {
        v.push(ModelDir { path: copy(p), source: "OLLAMA_MODELS" });
    }
    v.push(ModelDir { path: path_below(home, ".ollama/models", windows), source: "ollama" });
    v.push(ModelDir { path: path_below(home, ".lmstudio/models", windows), source: "lm studio" });
    v.push(ModelDir { path: path_below(home, ".cache/lm-studio/models", windows), source: "lm studio" });
    v.push(ModelDir { path: path_below(home, ".cache/huggingface/hub", windows), source: "huggingface" });
    v.push(ModelDir { path: path_below(home, ".local/share/models", windows), source: "local" });
    v.push(ModelDir { path: copy(home), source: "home (no runtime found)" });
    assert(dir_views(v@) =~= model_dirs(home@, crate::report::opt_str(named), crate::report::opt_str(ollama), windows));
    v
}

/// What is known of a volume.
pub struct Volume {
    pub mount: String,
    pub fstype: String,
    pub total: u64,
    pub free: u64,
    pub local: bool,
}

/// A platform's way to tell a medium: Linux by its block devices; a Mac's is
/// soldered; on Windows only a removable one is told apart.
pub enum MediumClues {
    Linux(Vec<DeviceMedium>, Vec<Option<String>>),
    MacOs,
    Windows,
}

pub open spec fn clues_fit(c: MediumClues) -> bool {
    match c {
        MediumClues::Linux(d, a) => d@.len() == a@.len(),
        _ => true,
    }
}

pub open spec fn medium_for(fstype: Seq<char>, local: bool, c: MediumClues) -> Medium {
    if network_medium(fstype, local) {
        Medium::Network
    } else {
        match c {
            MediumClues::Linux(d, a) => medium_by(device_views(d@), opt_texts(a@)),
            MediumClues::MacOs => Medium::Nvme,
            MediumClues::Windows => if fstype == "removable"@ {
                Medium::Unknown
            } else {
                Medium::Ssd
            },
        }
    }
}

pub fn choose_medium(fstype: &str, local: bool, c: &MediumClues) -> (r: Medium)
    requires
        clues_fit(*c),
    ensures
        r == medium_for(fstype@, local, *c),
{
    if is_network(fstype, local) {
        return Medium::Network;
    }
    match c {
        MediumClues::Linux(d, a) => classify(d, a),
        MediumClues::MacOs => Medium::Nvme,
        MediumClues::Windows => if same(fstype, "removable") {
            Medium::Unknown
        } else {
            Medium::Ssd
        },
    }
}

impl Storage {
    /// The file that is read is a weight file if there is one, else any.
    pub open spec fn reads(self, target: BenchTarget) -> bool {
        &&& self.bench_is_weight == (target.weight is Some)
        &&& crate::fit::opt_text(self.bench_file) == (match target.weight {
            Some(c) => Some(c.path@),
            None => match target.any {
                Some(c) => Some(c.path@),
                None => None,
            },
        })
    }

    /// Where models live, what it is made of and what is wrong with it. A
    /// volume that could not be asked is unknown, and taken for local.
    pub fn assemble(dir: ModelDir, volume: Option<Volume>, clues: &MediumClues, target: BenchTarget) -> (r: Storage)
        requires
            clues_fit(*clues),
        ensures
            r.model_dir@ == dir.path@,
            r.source@ == dir.source@,
            match volume {
                Some(v) => {
                    &&& r.mount@ == v.mount@ && r.fstype@ == v.fstype@ && r.total == v.total && r.free == v.free
                    &&& r.medium == medium_for(v.fstype@, v.local, *clues)
                },
                None => {
                    &&& r.mount@ == dir.path@ && r.fstype@ == "unknown"@ && r.total == 0 && r.free == 0
                    &&& r.medium == medium_for("unknown"@, true, *clues)
                },
            },
            hazard_views(r.hazards@) == hazards_of(dir.path@, r.medium, r.fstype@, r.free as nat),
            r.reads(target),
    {
        let v = match volume {
            Some(v) => v,
            None => Volume { mount: copy(dir.path.as_str()), fstype: copy("unknown"), total: 0, free: 0, local: true },
        };
        let medium = choose_medium(v.fstype.as_str(), v.local, clues);
        let hazards = find_hazards(dir.path.as_str(), medium, v.fstype.as_str(), v.free);
        let (bench_file, bench_is_weight) = target.choose_file();
        Storage {
            model_dir: dir.path,
            mount: v.mount,
            fstype: v.fstype,
            medium,
            total: v.total,
            free: v.free,
            hazards,
            bench_file,
            bench_is_weight,
            source: dir.source,
        }
    }
}

} // verus!
