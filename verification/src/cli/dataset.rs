//! Which records a dataset holds, and which one is shared.

use vstd::prelude::*;
use crate::chars::{lines, trim};
use crate::cli::fit_cmd::{community_paths, data_dir, merged_lines, name_before, ordered_paths, record_files, thin_buckets, with_line, with_lines, Homes};
use crate::cli::share::{filename_for, is_fingerprint, last_line, record_in};
use crate::fit::{Coefficient, Confidence, Named};
use crate::json::string_at;
use crate::order::{in_order, lemma_hits_all, text_below, text_order_is_strict};
use crate::predict::Platform;
use crate::probe::storage::has_extension;
use crate::report::set_to;

verus! {

/// A line that says something stands in one of the files.
pub open spec fn stands_in(files: Seq<Seq<char>>, t: Seq<char>) -> bool {
    exists|f: int, i: int| #![trigger lines(files[f])[i]]
        0 <= f < files.len() && 0 <= i < lines(files[f]).len() && trim(lines(files[f])[i]) == t
}

proof fn lemma_with_lines(seen: Seq<Seq<char>>, l: Seq<Seq<char>>, t: Seq<char>)
    ensures
        with_lines(seen, l).contains(t) <==> seen.contains(t) || (t.len() > 0 && exists|i: int| 0 <= i < l.len() && trim(#[trigger] l[i]) == t),
    decreases l.len(),
{
    if l.len() > 0 {
        let r = l.drop_last();
        lemma_with_lines(seen, r, t);
        let a = with_lines(seen, r);
        let b = with_line(a, l.last());
        let x = trim(l.last());
        assert(b.contains(t) <==> a.contains(t) || (t.len() > 0 && t == x)) by {
            if a.contains(t) {
                let k = choose|k: int| 0 <= k < a.len() && a[k] == t;
                assert(b[k] == t);
            }
            if b.contains(t) && !a.contains(t) {
                let k = choose|k: int| 0 <= k < b.len() && b[k] == t;
                if k < a.len() {
                    assert(a[k] == t);
                }
            }
            if t.len() > 0 && t == x && !a.contains(t) {
                assert(b[a.len() as int] == t);
            }
        }
        if exists|i: int| 0 <= i < r.len() && trim(#[trigger] r[i]) == t {
            let i = choose|i: int| 0 <= i < r.len() && trim(#[trigger] r[i]) == t;
            assert(trim(l[i]) == t);
        }
        if exists|i: int| 0 <= i < l.len() && trim(#[trigger] l[i]) == t {
            let i = choose|i: int| 0 <= i < l.len() && trim(#[trigger] l[i]) == t;
            if i < r.len() {
                assert(trim(r[i]) == t);
            }
        }
        assert(trim(l[l.len() - 1]) == x);
    }
}

/// A dataset holds every line of every file that says something, trimmed, and
/// no other: none is lost, and none is made up.
pub proof fn no_record_is_lost(files: Seq<Seq<char>>, t: Seq<char>)
    ensures
        merged_lines(files).contains(t) <==> t.len() > 0 && stands_in(files, t),
    decreases files.len(),
{
    if files.len() > 0 {
        let r = files.drop_last();
        let last = files.len() - 1;
        no_record_is_lost(r, t);
        lemma_with_lines(merged_lines(r), lines(files.last()), t);
        if stands_in(r, t) {
            let (f, i) = choose|f: int, i: int| #![trigger lines(r[f])[i]]
                0 <= f < r.len() && 0 <= i < lines(r[f]).len() && trim(lines(r[f])[i]) == t;
            assert(trim(lines(files[f])[i]) == t);
        }
        if stands_in(files, t) {
            let (f, i) = choose|f: int, i: int| #![trigger lines(files[f])[i]]
                0 <= f < files.len() && 0 <= i < lines(files[f]).len() && trim(lines(files[f])[i]) == t;
            if f < last {
                assert(trim(lines(r[f])[i]) == t);
            }
        }
        let l = lines(files.last());
        if exists|i: int| 0 <= i < l.len() && trim(#[trigger] l[i]) == t {
            let i = choose|i: int| 0 <= i < l.len() && trim(#[trigger] l[i]) == t;
            assert(trim(lines(files[last])[i]) == t);
        }
    }
}

/// The files of records are those with their extension, all of them.
pub proof fn files_of_records_are_told_by_their_extension(names: Seq<Seq<char>>, x: Seq<char>)
    ensures
        record_files(names).contains(x) <==> names.contains(x) && has_extension(x, "jsonl"@),
        record_files(names).len() <= names.len(),
    decreases names.len(),
{
    if names.len() > 0 {
        let r = names.drop_last();
        let (a, b) = (record_files(r), record_files(names));
        files_of_records_are_told_by_their_extension(r, x);
        if a.contains(x) {
            let k = choose|k: int| 0 <= k < a.len() && a[k] == x;
            assert(b[k] == x);
        }
        if r.contains(x) {
            let k = choose|k: int| 0 <= k < r.len() && r[k] == x;
            assert(names[k] == x);
        }
        if b.contains(x) && !a.contains(x) {
            let k = choose|k: int| 0 <= k < b.len() && b[k] == x;
            if k < a.len() {
                assert(a[k] == x);
            }
            assert(names[names.len() - 1] == x);
        }
        if names.contains(x) && !r.contains(x) {
            let k = choose|k: int| 0 <= k < names.len() && names[k] == x;
            if k < r.len() {
                assert(r[k] == x);
            }
            if has_extension(x, "jsonl"@) {
                assert(b[a.len() as int] == x);
            }
        }
    }
}

/// Submitted files are read in the order of their names, each once.
pub proof fn submissions_are_read_by_name(p: Seq<Seq<char>>, dir: Seq<char>, names: Seq<Seq<char>>, windows: bool)
    requires
        community_paths(p, dir, names, windows),
        names.len() <= usize::MAX,
    ensures
        p.len() == names.len(),
        exists|o: Seq<usize>| p == #[trigger] ordered_paths(dir, names, o, windows) && (forall|i: int, j: int|
            0 <= i < j < o.len() ==> !text_below(names[#[trigger] o[j] as int], names[#[trigger] o[i] as int])) && (forall|v: usize|
            v < names.len() ==> #[trigger] o.contains(v)),
{
    let f = name_before(names);
    let o = choose|o: Seq<usize>| in_order(o, names.len(), name_before(names)) && p == #[trigger] ordered_paths(dir, names, o, windows);
    assert forall|i: int| 0 <= i < names.len() implies !(#[trigger] f(i, i)) by {
        text_order_is_strict(names[i]);
    }
    lemma_hits_all(o, names.len(), f);
    assert forall|i: int, j: int| 0 <= i < j < o.len() implies !text_below(names[#[trigger] o[j] as int], names[#[trigger] o[i] as int]) by {
        let (a, b) = (names[o[i] as int], names[o[j] as int]);
        assert(f(o[i] as int, o[j] as int));
        text_order_is_strict(a);
        if text_below(a, b) && text_below(b, a) {
            crate::order::text_order_carries_over(a, b, a);
        }
    }
}

/// The record that is shared is the last line that says something, and only
/// where it is a record: it names its machine and its error.
pub proof fn the_last_record_is_shared(path: Seq<char>, text: Seq<char>)
    ensures
        record_in(path, text) matches Ok(l) ==> {
            &&& l.len() > 0
            &&& string_at(l, "hw"@) is Some
            &&& exists|i: int| 0 <= i < lines(text).len() && trim(#[trigger] lines(text)[i]) == l && forall|j: int|
                i < j < lines(text).len() ==> trim(#[trigger] lines(text)[j]).len() == 0
        },
{
    lemma_last_line(lines(text));
}

proof fn lemma_last_line(l: Seq<Seq<char>>)
    ensures
        match last_line(l) {
            Some(t) => t.len() > 0 && exists|i: int| 0 <= i < l.len() && trim(#[trigger] l[i]) == t && forall|j: int|
                i < j < l.len() ==> trim(#[trigger] l[j]).len() == 0,
            None => forall|i: int| 0 <= i < l.len() ==> trim(#[trigger] l[i]).len() == 0,
        },
    decreases l.len(),
{
    if l.len() > 0 {
        let r = l.drop_last();
        let n = l.len() - 1;
        if trim(l.last()).len() > 0 {
            assert(trim(l[n]) == trim(l.last()));
        } else {
            lemma_last_line(r);
            if let Some(t) = last_line(r) {
                let i = choose|i: int| 0 <= i < r.len() && trim(#[trigger] r[i]) == t && forall|j: int|
                    i < j < r.len() ==> trim(#[trigger] r[j]).len() == 0;
                assert(trim(l[i]) == t);
                assert forall|j: int| i < j < l.len() implies trim(#[trigger] l[j]).len() == 0 by {
                    if j < n {
                        assert(trim(r[j]).len() == 0);
                    }
                }
            } else {
                assert forall|i: int| 0 <= i < l.len() implies trim(#[trigger] l[i]).len() == 0 by {
                    if i < n {
                        assert(trim(r[i]).len() == 0);
                    }
                }
            }
        }
    }
}

/// A record goes to a file that starts with its machine's fingerprint, and a
/// record without a proper one goes nowhere.
pub proof fn a_file_is_named_after_its_machine(line: Seq<char>)
    ensures
        match string_at(line, "hw"@) {
            Some(hw) => if hw.len() == 16 && is_fingerprint(hw) {
                filename_for(line) matches Ok(f) && hw.is_prefix_of(f) && f.len() > 16 && f[16] == '-'
            } else {
                filename_for(line) is Err
            },
            None => filename_for(line) is Err,
        },
{
    reveal_strlit("-");
    reveal_strlit(".jsonl");
}

/// A user who says where data goes is heard on every platform; else each
/// platform has its own place, and without one there is none.
pub proof fn a_data_directory_that_is_set_is_used(h: Homes, platform: Platform)
    ensures
        set_to(h.xdg_data_home) matches Some(x) ==> (data_dir(h, platform) matches Some(d) && x.is_prefix_of(d)),
        set_to(h.xdg_data_home) is None && platform == Platform::Windows ==> (set_to(h.local_app_data) matches Some(l) ==> (data_dir(h, platform) matches Some(d)
            && l.is_prefix_of(d))),
        set_to(h.xdg_data_home) is None && platform != Platform::Windows ==> (set_to(h.home) matches Some(u) ==> (data_dir(h, platform) matches Some(d)
            && u.is_prefix_of(d))),
        set_to(h.xdg_data_home) is None && platform != Platform::Windows && set_to(h.home) is None ==> data_dir(h, platform) is None,
{
}

/// The buckets that are told to need more runs are those of low confidence.
pub proof fn thin_buckets_are_those_of_low_confidence(b: Seq<Named<Coefficient>>, at: Seq<usize>, i: int)
    requires
        0 <= i < at.len(),
        b[at[i] as int].value.confidence == Confidence::Low,
    ensures
        thin_buckets(b, at).contains(b[at[i] as int].key@),
    decreases at.len(),
{
    let r = at.drop_last();
    let (x, y) = (thin_buckets(b, r), thin_buckets(b, at));
    if i < r.len() {
        assert(r[i] == at[i]);
        thin_buckets_are_those_of_low_confidence(b, r, i);
        let k = choose|k: int| 0 <= k < x.len() && x[k] == b[at[i] as int].key@;
        assert(y[k] == x[k]);
    } else {
        assert(y[x.len() as int] == b[at[i] as int].key@);
    }
}

} // verus!
