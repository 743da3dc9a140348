//! `zc fit`: what the calibration dataset currently says, and where it is.
//!
//! The evidence behind every prediction is inspectable: a user who wants to
//! know why a speed is claimed can see how many real runs it rests on.

use vstd::prelude::*;
use crate::chars::{
    below, concat2, concat3, copy, dec, decimal, join, joined, left, lines, lines_of, pad_left, pad_right, path_below, right, same, texts, trim, trimmed,
};
use crate::double::Double;
use crate::fit::{is_summary, Coefficient, Confidence, Fit, Named};
use crate::order::{in_order, sort_positions, text_below, text_less, Sorter};
use crate::predict::Platform;
use crate::probe::storage::{extension_is, has_extension};
use crate::report::{opt_str, redact, redacted, set_to, setting, wrap, wrapped};

verus! {

pub const APP: &'static str = "zerocloud";

pub const LOCAL: &'static str = "local.jsonl";

pub const CURATED: &'static str = "gate.jsonl";

pub const COMMUNITY: &'static str = "community";

// ----------------------------------------------------------------------- paths

/// Which directory holds this machine's calibration data: a checkout's own
/// dataset wins over the per-user one, and without either the checkout's place
/// is still better than losing a measurement.
pub fn choose_base(repo: &str, repo_has_dataset: bool, user: Option<&str>) -> (r: String)
    ensures
        r@ == (match user {
            Some(u) => if repo_has_dataset {
                repo@
            } else {
                u@
            },
            None => repo@,
        }),
{
    if repo_has_dataset {
        return copy(repo);
    }
    match user {
        Some(u) => copy(u),
        None => copy(repo),
    }
}

/// The file of a calibration directory that is the dataset to read: the
/// curated cross-machine set if it is there, this machine's own otherwise.
pub fn resolve(dir: &str, has_curated: bool, windows: bool) -> (r: String)
    ensures
        r@ == below(dir@, if has_curated { CURATED@ } else { LOCAL@ }, windows),
{
    if has_curated {
        path_below(dir, CURATED, windows)
    } else {
        path_below(dir, LOCAL, windows)
    }
}

/// Where a new measurement is written: always this machine's file. Promoting a
/// record into the curated set is a deliberate step.
pub fn record_in(dir: &str, windows: bool) -> (r: String)
    ensures
        r@ == below(dir@, LOCAL@, windows),
{
    path_below(dir, LOCAL, windows)
}

/// A measurement is never written into the curated dataset that is read.
pub proof fn writes_never_reach_the_curated_set(dir: Seq<char>, windows: bool)
    ensures
        below(dir, LOCAL@, windows) != below(dir, CURATED@, windows),
{
    reveal_strlit("local.jsonl");
    reveal_strlit("gate.jsonl");
    reveal_strlit("/");
    reveal_strlit("\\");
    assert(LOCAL@.len() != CURATED@.len());
    assert(below(dir, LOCAL@, windows).len() != below(dir, CURATED@, windows).len());
}

/// Where the dataset is read from: what was asked for by name, or the file of
/// the directory.
pub fn path(named: Option<&str>, dir: &str, has_curated: bool, windows: bool) -> (r: String)
    ensures
        r@ == (match named {
            Some(p) => p@,
            None => below(dir@, if has_curated { CURATED@ } else { LOCAL@ }, windows),
        }),
{
    match named {
        Some(p) => copy(p),
        None => resolve(dir, has_curated, windows),
    }
}

/// Where a new measurement goes: what was asked for by name, or this machine's
/// own file.
pub fn record_path(named: Option<&str>, dir: &str, windows: bool) -> (r: String)
    ensures
        r@ == (match named {
            Some(p) => p@,
            None => below(dir@, LOCAL@, windows),
        }),
{
    match named {
        Some(p) => copy(p),
        None => record_in(dir, windows),
    }
}

/// What the environment says about where a user's data goes.
pub struct Homes {
    pub xdg_data_home: Option<String>,
    pub local_app_data: Option<String>,
    pub user_profile: Option<String>,
    pub home: Option<String>,
}

/// The per-user data directory by platform convention. A user who has set
/// `XDG_DATA_HOME` has said where they want application data, on any platform.
pub open spec fn data_dir(h: Homes, platform: Platform) -> Option<Seq<char>> {
    let windows = platform == Platform::Windows;
    match set_to(h.xdg_data_home) {
        Some(x) => Some(below(x, APP@, windows)),
        None => match platform {
            Platform::Windows => match set_to(h.local_app_data) {
                Some(l) => Some(below(l, APP@, windows)),
                None => match set_to(h.user_profile) {
                    Some(u) => Some(below(below(below(u, "AppData"@, windows), "Local"@, windows), APP@, windows)),
                    None => None,
                },
            },
            Platform::MacOs => match set_to(h.home) {
                Some(u) => Some(below(below(below(u, "Library"@, windows), "Application Support"@, windows), APP@, windows)),
                None => None,
            },
            Platform::Other => match set_to(h.home) {
                Some(u) => Some(below(below(below(u, ".local"@, windows), "share"@, windows), APP@, windows)),
                None => None,
            },
        },
    }
}

fn nested(base: &str, first: &str, second: &str, windows: bool) -> (r: String)
    ensures
        r@ == below(below(below(base@, first@, windows), second@, windows), APP@, windows),
{
    path_below(path_below(path_below(base, first, windows).as_str(), second, windows).as_str(), APP, windows)
}

pub fn user_data_dir(h: &Homes, platform: Platform) -> (r: Option<String>)
    ensures
        crate::fit::opt_text(r) == data_dir(*h, platform),
{
    let windows = platform == Platform::Windows;
    if let Some(x) = setting(&h.xdg_data_home) {
        return Some(path_below(x, APP, windows));
    }
    match platform {
        Platform::Windows => {
            if let Some(l) = setting(&h.local_app_data) {
                return Some(path_below(l, APP, windows));
            }
            match setting(&h.user_profile) {
                Some(u) => Some(nested(u, "AppData", "Local", windows)),
                None => None,
            }
        },
        Platform::MacOs => match setting(&h.home) {
            Some(u) => Some(nested(u, "Library", "Application Support", windows)),
            None => None,
        },
        Platform::Other => match setting(&h.home) {
            Some(u) => Some(nested(u, ".local", "share", windows)),
            None => None,
        },
    }
}

/// The file names that are records, of those that a directory holds.
pub open spec fn record_files(names: Seq<Seq<char>>) -> Seq<Seq<char>>
    decreases names.len(),
{
    if names.len() == 0 {
        names
    } else {
        let rest = record_files(names.drop_last());
        if has_extension(names.last(), "jsonl"@) {
            rest.push(names.last())
        } else {
            rest
        }
    }
}

/// `a` is listed before `b`: by name, and as they came where names repeat.
pub open spec fn name_before(v: Seq<Seq<char>>) -> spec_fn(int, int) -> bool {
    |a: int, b: int| text_below(v[a], v[b]) || (v[a] == v[b] && a < b)
}

struct ByName<'a> {
    v: &'a Vec<String>,
}

impl Sorter for ByName<'_> {
    closed spec fn size(&self) -> nat {
        self.v@.len()
    }

    closed spec fn rule(&self) -> spec_fn(int, int) -> bool {
        name_before(texts(self.v@))
    }

    fn comes_before(&self, a: usize, b: usize) -> (r: bool) {
        let p = self.v[a].as_str();
        let q = self.v[b].as_str();
        text_less(p, q) || (same(p, q) && a < b)
    }

    proof fn rule_is_total(&self) {
        let v = texts(self.v@);
        let f = name_before(v);
        assert forall|a: int, b: int| 0 <= a < v.len() && 0 <= b < v.len() && a != b implies #[trigger] f(a, b)
            != #[trigger] f(b, a) by {
            if v[a] != v[b] {
                crate::order::text_order_is_total(v[a], v[b]);
            } else {
                crate::order::text_order_is_strict(v[a]);
            }
        }
        assert forall|a: int, b: int, c: int|
            0 <= a < v.len() && 0 <= b < v.len() && 0 <= c < v.len() && #[trigger] f(a, b) && #[trigger] f(b, c) implies f(a, c) by {
            if text_below(v[a], v[b]) && text_below(v[b], v[c]) {
                crate::order::text_order_carries_over(v[a], v[b], v[c]);
            }
        }
    }
}

/// The paths of the files in the order `o`.
pub open spec fn ordered_paths(dir: Seq<char>, names: Seq<Seq<char>>, o: Seq<usize>, windows: bool) -> Seq<Seq<char>> {
    o.map_values(|k: usize| below(below(dir, COMMUNITY@, windows), names[k as int], windows))
}

pub open spec fn community_paths(p: Seq<Seq<char>>, dir: Seq<char>, names: Seq<Seq<char>>, windows: bool) -> bool {
    exists|o: Seq<usize>| in_order(o, names.len(), name_before(names)) && p == #[trigger] ordered_paths(dir, names, o, windows)
}

fn keep_records(names: &Vec<String>) -> (r: Vec<String>)
    ensures
        texts(r@) == record_files(texts(names@)),
{
    let ghost all = texts(names@);
    let mut out: Vec<String> = Vec::new();
    let mut i: usize = 0;
    assert(texts(out@) =~= record_files(all.subrange(0, 0)));
    while i < names.len()
        invariant
            i <= names@.len(),
            all == texts(names@),
            texts(out@) == record_files(all.subrange(0, i as int)),
        decreases names@.len() - i,
    {
        assert(all.subrange(0, i + 1).drop_last() =~= all.subrange(0, i as int));
        assert(all.subrange(0, i + 1).last() == names@[i as int]@);
        let ghost prev = out@;
        let name = names[i].as_str();
        if extension_is(name, "jsonl") {
            out.push(copy(name));
            assert(texts(out@) =~= texts(prev).push(name@));
        }
        i += 1;
    }
    assert(all.subrange(0, i as int) =~= all);
    out
}

/// Every file the dataset is read from: the curated set or this machine's own,
/// then each merged submission of the community directory, sorted so that two
/// readers cannot compute different numbers from one repository.
pub fn sources_in(dir: &str, has_curated: bool, community: &Vec<String>, windows: bool) -> (r: Vec<String>)
    ensures
        r@.len() == 1 + record_files(texts(community@)).len(),
        r@[0]@ == below(dir@, if has_curated { CURATED@ } else { LOCAL@ }, windows),
        community_paths(texts(r@).subrange(1, r@.len() as int), dir@, record_files(texts(community@)), windows),
{
    let names = keep_records(community);
    let ghost kept = texts(names@);
    assert(kept.len() == names@.len());
    let o = sort_positions(&ByName { v: &names }, names.len());
    let folder = path_below(dir, COMMUNITY, windows);
    let mut out: Vec<String> = Vec::new();
    out.push(resolve(dir, has_curated, windows));
    let mut i: usize = 0;
    while i < o.len()
        invariant
            i <= o@.len(),
            kept == texts(names@),
            kept.len() == names@.len(),
            o@.len() == names@.len(),
            in_order(o@, kept.len(), name_before(kept)),
            folder@ == below(dir@, COMMUNITY@, windows),
            out@.len() == i + 1,
            out@[0]@ == below(dir@, if has_curated { CURATED@ } else { LOCAL@ }, windows),
            texts(out@).subrange(1, out@.len() as int) =~= ordered_paths(dir@, kept, o@.subrange(0, i as int), windows),
        decreases o@.len() - i,
    {
        assert(o@[i as int] < names@.len());
        assert(kept[o@[i as int] as int] == names@[o@[i as int] as int]@);
        let ghost prev = texts(out@).subrange(1, out@.len() as int);
        let p = path_below(folder.as_str(), names[o[i]].as_str(), windows);
        out.push(p);
        assert(texts(out@).subrange(1, out@.len() as int) =~= prev.push(p@));
        i += 1;
    }
    assert(o@.subrange(0, i as int) =~= o@);
    assert(texts(out@).subrange(1, out@.len() as int) == ordered_paths(dir@, kept, o@, windows));
    out
}

/// Every file the dataset is read from: one that was asked for by name is read
/// alone.
pub fn sources(named: Option<&str>, dir: &str, has_curated: bool, community: &Vec<String>, windows: bool) -> (r: Vec<String>)
    ensures
        match named {
            Some(p) => texts(r@) == seq![p@],
            None => {
                &&& r@.len() == 1 + record_files(texts(community@)).len()
                &&& r@[0]@ == below(dir@, if has_curated { CURATED@ } else { LOCAL@ }, windows)
                &&& community_paths(texts(r@).subrange(1, r@.len() as int), dir@, record_files(texts(community@)), windows)
            },
        },
{
    match named {
        Some(p) => {
            let mut out: Vec<String> = Vec::new();
            out.push(copy(p));
            assert(texts(out@) =~= seq![p@]);
            out
        },
        None => sources_in(dir, has_curated, community, windows),
    }
}

// ------------------------------------------------------------------- the dataset

/// The lines of a dataset so far, each once.
pub open spec fn with_line(seen: Seq<Seq<char>>, line: Seq<char>) -> Seq<Seq<char>> {
    let t = trim(line);
    if t.len() == 0 || seen.contains(t) {
        seen
    } else {
        seen.push(t)
    }
}

pub open spec fn with_lines(seen: Seq<Seq<char>>, l: Seq<Seq<char>>) -> Seq<Seq<char>>
    decreases l.len(),
{
    if l.len() == 0 {
        seen
    } else {
        with_line(with_lines(seen, l.drop_last()), l.last())
    }
}

/// The records of the files, one per line, exact duplicates dropped.
pub open spec fn merged_lines(files: Seq<Seq<char>>) -> Seq<Seq<char>>
    decreases files.len(),
{
    if files.len() == 0 {
        Seq::empty()
    } else {
        with_lines(merged_lines(files.drop_last()), lines(files.last()))
    }
}

fn add_lines(seen: &mut Vec<String>, text: &str)
    ensures
        texts(final(seen)@) == with_lines(texts(old(seen)@), lines(text@)),
{
    let l = lines_of(text);
    let ghost all = texts(l@);
    let ghost start = texts(seen@);
    let mut i: usize = 0;
    assert(all.subrange(0, 0) =~= Seq::<Seq<char>>::empty());
    while i < l.len()
        invariant
            i <= l@.len(),
            all == texts(l@),
            texts(seen@) == with_lines(start, all.subrange(0, i as int)),
        decreases l@.len() - i,
    {
        assert(all.subrange(0, i + 1).drop_last() =~= all.subrange(0, i as int));
        assert(all.subrange(0, i + 1).last() == l@[i as int]@);
        let t = trimmed(l[i].as_str());
        let ghost prev = seen@;
        if t.as_str().unicode_len() > 0 && !crate::chars::holds(seen, t.as_str()) {
            seen.push(t);
            assert(texts(seen@) =~= texts(prev).push(trim(l@[i as int]@)));
        }
        i += 1;
    }
    assert(all.subrange(0, i as int) =~= all);
}

/// Concatenate the files that could be read, one record per line, dropping
/// exact duplicates. A record that is both curated and submitted counts once,
/// and a file without a last line feed does not weld two records together.
pub fn read_text(files: &Vec<String>) -> (r: String)
    ensures
        r@ == crate::chars::lines_text(merged_lines(texts(files@))),
{
    let ghost all = texts(files@);
    let mut seen: Vec<String> = Vec::new();
    let mut i: usize = 0;
    assert(texts(seen@) =~= merged_lines(all.subrange(0, 0)));
    while i < files.len()
        invariant
            i <= files@.len(),
            all == texts(files@),
            texts(seen@) == merged_lines(all.subrange(0, i as int)),
        decreases files@.len() - i,
    {
        assert(all.subrange(0, i + 1).drop_last() =~= all.subrange(0, i as int));
        assert(all.subrange(0, i + 1).last() == files@[i as int]@);
        add_lines(&mut seen, files[i].as_str());
        i += 1;
    }
    assert(all.subrange(0, i as int) =~= all);
    let ghost m = texts(seen@);
    let mut o = String::new();
    let mut k: usize = 0;
    assert(m.subrange(0, 0) =~= Seq::<Seq<char>>::empty());
    while k < seen.len()
        invariant
            k <= seen@.len(),
            m == texts(seen@),
            o@ == crate::chars::lines_text(m.subrange(0, k as int)),
        decreases seen@.len() - k,
    {
        assert(m.subrange(0, k + 1).drop_last() =~= m.subrange(0, k as int));
        assert(m.subrange(0, k + 1).last() == seen@[k as int]@);
        let ghost before = o@;
        o.append(seen[k].as_str());
        o.push('\n');
        assert(o@ =~= before + seen@[k as int]@ + seq!['\n']);
        k += 1;
    }
    assert(m.subrange(0, k as int) =~= m);
    o
}

proof fn lemma_with_lines_unique(seen: Seq<Seq<char>>, l: Seq<Seq<char>>)
    requires
        seen.no_duplicates(),
    ensures
        with_lines(seen, l).no_duplicates(),
    decreases l.len(),
{
    if l.len() > 0 {
        lemma_with_lines_unique(seen, l.drop_last());
    }
}

/// No record counts twice, however many files hold it.
pub proof fn a_record_counts_once(files: Seq<Seq<char>>)
    ensures
        merged_lines(files).no_duplicates(),
    decreases files.len(),
{
    if files.len() > 0 {
        a_record_counts_once(files.drop_last());
        lemma_with_lines_unique(merged_lines(files.drop_last()), lines(files.last()));
    }
}

// ---------------------------------------------------------------- descriptions

/// What was read, home-relative: this is printed and pasted into public
/// issues. The count of submissions is how a contributor sees theirs arrive.
pub open spec fn sources_text(paths: Seq<Seq<char>>, home: Option<&str>) -> Seq<char> {
    if paths.len() == 0 {
        "no dataset"@
    } else if paths.len() == 1 {
        redacted(paths[0], opt_str(home))
    } else {
        redacted(paths[0], opt_str(home)) + ", plus "@ + dec((paths.len() - 1) as nat) + " community record(s)"@
    }
}

pub fn describe_sources(paths: &Vec<String>, home: Option<&str>) -> (r: String)
    ensures
        r@ == sources_text(texts(paths@), home),
{
    assert(texts(paths@).len() == paths@.len());
    if paths.len() == 0 {
        return copy("no dataset");
    }
    assert(texts(paths@)[0] == paths@[0]@);
    let mut o = redact(paths[0].as_str(), home);
    if paths.len() == 1 {
        return o;
    }
    o.append(", plus ");
    o.append(decimal((paths.len() - 1) as u128).as_str());
    o.append(" community record(s)");
    o
}

/// The same, with the records that are part of the program. Naming a file that
/// does not exist is worse than naming none.
pub open spec fn dataset_text(paths: Seq<Seq<char>>, first_exists: bool, home: Option<&str>) -> Seq<char> {
    if paths.len() > 0 && first_exists {
        sources_text(paths, home) + ", plus the dataset shipped in this binary"@
    } else {
        "the dataset shipped in this binary"@
    }
}

pub fn describe_dataset(paths: &Vec<String>, first_exists: bool, home: Option<&str>) -> (r: String)
    ensures
        r@ == dataset_text(texts(paths@), first_exists, home),
{
    assert(texts(paths@).len() == paths@.len());
    if paths.len() > 0 && first_exists {
        concat2(describe_sources(paths, home).as_str(), ", plus the dataset shipped in this binary")
    } else {
        copy("the dataset shipped in this binary")
    }
}

// ----------------------------------------------------------------- the summary

/// A bucket's line: its runs and machines, its efficiency and spread.
pub open spec fn bucket_row(key: Seq<char>, runs: Seq<char>, machines: Seq<char>, eta: Seq<char>, spread: Seq<char>, conf: Seq<char>) -> Seq<char> {
    "  "@ + left(key, 24) + " "@ + right(runs, 7) + " "@ + right(machines, 9) + " "@ + right(eta, 9) + " "@ + right(
        spread,
        9,
    ) + "  "@ + conf + "\n"@
}

fn bucket_line(key: &str, runs: &str, machines: &str, eta: &str, spread: &str, conf: &str) -> (o: String)
    ensures
        o@ == bucket_row(key@, runs@, machines@, eta@, spread@, conf@),
{
    let mut o = copy("  ");
    o.append(pad_right(key, 24).as_str());
    o.append(" ");
    o.append(pad_left(runs, 7).as_str());
    o.append(" ");
    o.append(pad_left(machines, 9).as_str());
    o.append(" ");
    o.append(pad_left(eta, 9).as_str());
    o.append(" ");
    o.append(pad_left(spread, 9).as_str());
    o.append("  ");
    o.append(conf);
    o.append("\n");
    o
}

/// The spread in percent, right-aligned before its sign.
pub open spec fn spread_text(pct: Double) -> Seq<char> {
    right(pct.text(0), 8) + "%"@
}

pub open spec fn named_row(n: Named<Coefficient>) -> Seq<char> {
    bucket_row(
        n.key@,
        dec(n.value.samples as nat),
        dec(n.value.machines as nat),
        n.value.eta.text(3),
        spread_text(n.value.spread.in_percent()),
        n.value.confidence.label_text(),
    )
}

/// The rows of the buckets at the positions.
pub open spec fn bucket_rows(b: Seq<Named<Coefficient>>, at: Seq<usize>) -> Seq<char>
    decreases at.len(),
{
    if at.len() == 0 {
        Seq::empty()
    } else {
        bucket_rows(b, at.drop_last()) + named_row(b[at.last() as int])
    }
}

/// The names of the buckets with little evidence.
pub open spec fn thin_buckets(b: Seq<Named<Coefficient>>, at: Seq<usize>) -> Seq<Seq<char>>
    decreases at.len(),
{
    if at.len() == 0 {
        Seq::empty()
    } else {
        let rest = thin_buckets(b, at.drop_last());
        if b[at.last() as int].value.confidence == Confidence::Low {
            rest.push(b[at.last() as int].key@)
        } else {
            rest
        }
    }
}

fn rows(b: &Vec<Named<Coefficient>>, at: &Vec<usize>) -> (o: String)
    requires
        forall|i: int| 0 <= i < at@.len() ==> (#[trigger] at@[i]) < b@.len(),
    ensures
        o@ == bucket_rows(b@, at@),
{
    let mut o = String::new();
    let mut i: usize = 0;
    assert(at@.subrange(0, 0) =~= Seq::<usize>::empty());
    while i < at.len()
        invariant
            i <= at@.len(),
            forall|i: int| 0 <= i < at@.len() ==> (#[trigger] at@[i]) < b@.len(),
            o@ == bucket_rows(b@, at@.subrange(0, i as int)),
        decreases at@.len() - i,
    {
        assert(at@.subrange(0, i + 1).drop_last() =~= at@.subrange(0, i as int));
        assert(at@[i as int] < b@.len());
        let n = &b[at[i]];
        let spread = concat2(pad_left(n.value.spread.percent().fixed(0).as_str(), 8).as_str(), "%");
        let line = bucket_line(
            n.key.as_str(),
            decimal(n.value.samples as u128).as_str(),
            decimal(n.value.machines as u128).as_str(),
            n.value.eta.fixed(3).as_str(),
            spread.as_str(),
            n.value.confidence.label(),
        );
        o.append(line.as_str());
        i += 1;
    }
    assert(at@.subrange(0, i as int) =~= at@);
    o
}

fn thin(b: &Vec<Named<Coefficient>>, at: &Vec<usize>) -> (r: Vec<String>)
    requires
        forall|i: int| 0 <= i < at@.len() ==> (#[trigger] at@[i]) < b@.len(),
    ensures
        texts(r@) == thin_buckets(b@, at@),
{
    let mut out: Vec<String> = Vec::new();
    let mut i: usize = 0;
    assert(texts(out@) =~= thin_buckets(b@, at@.subrange(0, 0)));
    while i < at.len()
        invariant
            i <= at@.len(),
            forall|i: int| 0 <= i < at@.len() ==> (#[trigger] at@[i]) < b@.len(),
            texts(out@) == thin_buckets(b@, at@.subrange(0, i as int)),
        decreases at@.len() - i,
    {
        assert(at@.subrange(0, i + 1).drop_last() =~= at@.subrange(0, i as int));
        assert(at@[i as int] < b@.len());
        let ghost prev = out@;
        if b[at[i]].value.confidence == Confidence::Low {
            out.push(copy(b[at[i]].key.as_str()));
            assert(texts(out@) =~= texts(prev).push(b@[at@[i as int] as int].key@));
        }
        i += 1;
    }
    assert(at@.subrange(0, i as int) =~= at@);
    out
}

/// What is said where nothing has been measured.
pub open spec fn empty_text(sources: Seq<char>) -> Seq<char> {
    "No calibration data at "@ + sources
        + ".\n\nEvery tok/s number zc reports is currently a shipped prior.\nTo replace priors with measurements:\n    ollama pull qwen3:4b && zc verify\n"@
}

/// The coefficients, with what the dataset is and where evidence is thin.
pub open spec fn fitted_text(dataset: Seq<char>, b: Seq<Named<Coefficient>>, at: Seq<usize>) -> Seq<char> {
    "== fitted coefficients ==\n"@ + crate::chars::lines_text(wrapped(dataset, 80, 2)) + "\n"@ + bucket_row(
        "bucket"@,
        "runs"@,
        "machines"@,
        "eta"@,
        "spread"@,
        "confidence"@,
    ) + bucket_rows(b, at) + (if thin_buckets(b, at).len() == 0 {
        ""@
    } else {
        "\n  Thin evidence in: "@ + join(thin_buckets(b, at), ", "@)
            + "\n  8 machines per bucket reaches medium confidence, 30 reaches high.\n  More runs on a machine already counted sharpen eta, never the tier:\n  they measure that machine again, not the next one.\n"@
    })
}

/// The body of `zc fit`, as text, so that a bug report embeds the identical
/// block.
pub fn summary_text(fit: &Fit, paths: &Vec<String>, first_exists: bool, home: Option<&str>) -> (o: String)
    ensures
        fit.buckets@.len() == 0 ==> o@ == empty_text(sources_text(texts(paths@), home)),
        fit.buckets@.len() > 0 ==> exists|at: Seq<usize>|
            is_summary(*fit, at) && o@ == #[trigger] fitted_text(
                dataset_text(texts(paths@), first_exists, home),
                fit.buckets@,
                at,
            ),
{
    if fit.is_empty() {
        return concat3(
            "No calibration data at ",
            describe_sources(paths, home).as_str(),
            ".\n\nEvery tok/s number zc reports is currently a shipped prior.\nTo replace priors with measurements:\n    ollama pull qwen3:4b && zc verify\n",
        );
    }
    let at = fit.ranked();
    assert(is_summary(*fit, at@));
    let dataset = describe_dataset(paths, first_exists, home);
    let l = wrap(dataset.as_str(), 80, 2);
    let ghost all = texts(l@);
    let mut where_from = String::new();
    let mut i: usize = 0;
    assert(all.subrange(0, 0) =~= Seq::<Seq<char>>::empty());
    while i < l.len()
        invariant
            i <= l@.len(),
            all == texts(l@),
            where_from@ == crate::chars::lines_text(all.subrange(0, i as int)),
        decreases l@.len() - i,
    {
        assert(all.subrange(0, i + 1).drop_last() =~= all.subrange(0, i as int));
        assert(all.subrange(0, i + 1).last() == l@[i as int]@);
        let ghost before = where_from@;
        where_from.append(l[i].as_str());
        where_from.push('\n');
        assert(where_from@ =~= before + l@[i as int]@ + seq!['\n']);
        i += 1;
    }
    assert(all.subrange(0, i as int) =~= all);
    let t = thin(&fit.buckets, &at);
    assert(texts(t@).len() == t@.len());
    let note = if t.len() == 0 {
        copy("")
    } else {
        concat3(
            "\n  Thin evidence in: ",
            joined(&t, ", ").as_str(),
            "\n  8 machines per bucket reaches medium confidence, 30 reaches high.\n  More runs on a machine already counted sharpen eta, never the tier:\n  they measure that machine again, not the next one.\n",
        )
    };
    let mut o = copy("== fitted coefficients ==\n");
    o.append(where_from.as_str());
    o.append("\n");
    o.append(bucket_line("bucket", "runs", "machines", "eta", "spread", "confidence").as_str());
    o.append(rows(&fit.buckets, &at).as_str());
    o.append(note.as_str());
    assert(o@ == fitted_text(dataset@, fit.buckets@, at@));
    o
}

} // verus!
