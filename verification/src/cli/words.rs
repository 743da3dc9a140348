//! What the words of a command line ask for.

use vstd::prelude::*;
use crate::cli::args::{
    command_in, command_name, edits, flag_at, flag_value, is_near, lemma_flag_at, mode_for, nearer, nearest_command, options_in, stray_option, top_in,
    Command, ModeView, OptionsView,
};
use crate::cli::hf::is_repo_id;
use crate::chars::unsigned;
use crate::kv::KvPrecision;

verus! {

/// No fewer edits than the lengths differ by, and no more than the longer is
/// long.
pub proof fn edits_are_bounded_by_the_lengths(a: Seq<char>, b: Seq<char>)
    ensures
        a.len() <= b.len() + edits(a, b),
        b.len() <= a.len() + edits(a, b),
        edits(a, b) <= a.len() || edits(a, b) <= b.len(),
    decreases a.len() + b.len(),
{
    if a.len() > 0 && b.len() > 0 {
        edits_are_bounded_by_the_lengths(a.drop_last(), b);
        edits_are_bounded_by_the_lengths(a, b.drop_last());
        edits_are_bounded_by_the_lengths(a.drop_last(), b.drop_last());
    }
}

/// One character more, or another one, is one edit at most.
pub proof fn one_change_is_one_edit(a: Seq<char>, c: char, d: char)
    ensures
        edits(a.push(c), a) <= 1,
        edits(a, a.push(c)) <= 1,
        edits(a.push(c), a.push(d)) <= 1,
{
    crate::cli::args::no_edits_between_same_texts(a, a);
    assert(a.push(c).drop_last() =~= a && a.push(d).drop_last() =~= a);
}

/// A command that can be suggested.
pub open spec fn is_command(c: Seq<char>) -> bool {
    c == "check"@ || c == "verify"@ || c == "fit"@ || c == "gate"@ || c == "share"@ || c == "doctor"@
}

proof fn lemma_nearer(best: Option<Seq<char>>, input: Seq<char>, c: Seq<char>)
    ensures
        ({
            let r = nearer(best, input, c);
            &&& r == best || (r == Some(c) && is_near(input, c))
            &&& is_near(input, c) ==> (r matches Some(x) && edits(input, x) <= edits(input, c))
            &&& best matches Some(b) ==> (r matches Some(x) && edits(input, x) <= edits(input, b))
        }),
{
}

/// What is suggested is a command that is two edits away at most, and no
/// command is nearer. Where none is that near nothing is suggested.
pub proof fn the_nearest_command_is_suggested(input: Seq<char>, c: Seq<char>)
    requires
        is_command(c),
    ensures
        nearest_command(input) matches Some(n) ==> is_command(n) && edits(input, n) <= 2 && edits(input, n) < n.len(),
        edits(input, c) <= 2 && edits(input, c) < c.len() ==> (nearest_command(input) matches Some(n) && edits(input, n) <= edits(input, c)),
{
    let a = nearer(None, input, "check"@);
    let b = nearer(a, input, "verify"@);
    let d = nearer(b, input, "fit"@);
    let e = nearer(d, input, "gate"@);
    let f = nearer(e, input, "share"@);
    lemma_nearer(None, input, "check"@);
    lemma_nearer(a, input, "verify"@);
    lemma_nearer(b, input, "fit"@);
    lemma_nearer(d, input, "gate"@);
    lemma_nearer(e, input, "share"@);
    lemma_nearer(f, input, "doctor"@);
}

/// One of the flags that are known.
pub open spec fn is_known(f: Seq<char>) -> bool {
    f == "--json"@ || f == "--runtime"@ || f == "--kv"@ || f == "--all"@ || f == "--top"@ || f == "--record"@ || f == "--print"@ || f == "--tui"@ || f
        == "--no-tui"@
}

proof fn lemma_not_given(args: Seq<Seq<char>>, flag: Seq<char>)
    requires
        forall|i: int| 0 <= i < args.len() ==> #[trigger] args[i] != flag,
    ensures
        flag_at(args, flag) is None,
{
    lemma_flag_at(args, flag);
}

/// Words without any flag ask for nothing but what they say: twenty rows at
/// full precision, printed.
pub proof fn without_flags_nothing_more_is_asked(a: Seq<Seq<char>>)
    requires
        forall|i: int| 0 <= i < a.len() ==> !is_known(#[trigger] a[i]),
    ensures
        options_in(a) matches Ok(o) && o.args == a && !o.json && !o.all && !o.print && !o.tui && !o.no_tui && o.runtime is None && o.record is None
            && !o.kv_given && !o.top_given && o.top == Some(20nat) && o.kv == KvPrecision::F16,
{
    lemma_not_given(a, "--json"@);
    lemma_not_given(a, "--runtime"@);
    lemma_not_given(a, "--kv"@);
    lemma_not_given(a, "--all"@);
    lemma_not_given(a, "--top"@);
    lemma_not_given(a, "--record"@);
    lemma_not_given(a, "--print"@);
    lemma_not_given(a, "--tui"@);
    lemma_not_given(a, "--no-tui"@);
}

/// A flag's value is what follows it, wherever the flag stands first; a flag
/// with nothing behind it is an error, and one that is not there is none.
pub proof fn a_value_follows_its_flag(args: Seq<Seq<char>>, flag: Seq<char>, i: int)
    requires
        0 <= i <= args.len(),
        forall|j: int| 0 <= j < i ==> #[trigger] args[j] != flag,
        i < args.len() ==> args[i] == flag,
    ensures
        i + 1 < args.len() ==> flag_value(args, flag) == Ok::<Option<Seq<char>>, Seq<char>>(Some(args[i + 1])),
        i + 1 == args.len() ==> flag_value(args, flag) is Err,
        i == args.len() ==> flag_value(args, flag) == Ok::<Option<Seq<char>>, Seq<char>>(None),
{
    lemma_flag_at(args, flag);
    if let Some(k) = flag_at(args, flag) {
        if k < i {
            assert(args[k] != flag);
        }
    }
}

/// A number of rows that is asked for counts even where all are asked for, and
/// none is no number.
pub proof fn a_number_of_rows_counts_before_all(s: Seq<char>, all: bool, n: nat)
    ensures
        unsigned(s, usize::MAX as nat) == Some(n) && n > 0 ==> top_in(Some(s), all) == Ok::<Option<nat>, Seq<char>>(Some(n)),
        unsigned(s, usize::MAX as nat) is None || unsigned(s, usize::MAX as nat) == Some(0nat) ==> top_in(Some(s), all) is Err,
        top_in(None, true) == Ok::<Option<nat>, Seq<char>>(None),
        top_in(None, false) == Ok::<Option<nat>, Seq<char>>(Some(20)),
{
}

proof fn lemma_stray(args: Seq<Seq<char>>)
    ensures
        stray_option(args) is None <==> forall|i: int| 0 <= i < args.len() ==> !crate::chars::starts_with(#[trigger] args[i], "-"@),
    decreases args.len(),
{
    if args.len() > 0 {
        let r = args.subrange(1, args.len() as int);
        lemma_stray(r);
        assert forall|i: int| 0 <= i < r.len() implies #[trigger] r[i] == args[i + 1] by {}
        if !crate::chars::starts_with(args[0], "-"@) {
            if stray_option(r) is None {
                assert forall|i: int| 0 <= i < args.len() implies !crate::chars::starts_with(#[trigger] args[i], "-"@) by {
                    if i > 0 {
                        assert(!crate::chars::starts_with(r[i - 1], "-"@));
                    }
                }
            } else {
                let i = choose|i: int| 0 <= i < r.len() && crate::chars::starts_with(#[trigger] r[i], "-"@);
                assert(crate::chars::starts_with(args[i + 1], "-"@));
            }
        }
    }
}

/// A command runs only where it is named, or where nothing is, and only where
/// no word is left that looks like a flag.
pub proof fn only_a_named_command_runs(o: OptionsView)
    ensures
        command_in(o) matches Ok(c) ==> (c != Command::Help && c != Command::Version ==> {
            &&& is_command(command_name(o.args))
            &&& forall|i: int| 0 <= i < o.args.len() ==> !crate::chars::starts_with(#[trigger] o.args[i], "-"@)
            &&& c == Command::Check <==> command_name(o.args) == "check"@
            &&& c == Command::Verify <==> command_name(o.args) == "verify"@
            &&& c == Command::Fit <==> command_name(o.args) == "fit"@
            &&& c == Command::Gate <==> command_name(o.args) == "gate"@
            &&& c == Command::Share <==> command_name(o.args) == "share"@
            &&& c == Command::Doctor <==> command_name(o.args) == "doctor"@
        }),
        o.args.len() == 0 && command_in(o) is Ok ==> command_name(o.args) == "check"@,
{
    lemma_stray(o.args);
    reveal_strlit("check");
    reveal_strlit("verify");
    reveal_strlit("fit");
    reveal_strlit("gate");
    reveal_strlit("share");
    reveal_strlit("doctor");
    assert("check"@[0] == 'c' && "verify"@[0] == 'v' && "fit"@[0] == 'f' && "gate"@[0] == 'g' && "share"@[0] == 's' && "doctor"@[0] == 'd');
}

/// A table is opened only on a terminal, never for a repository, and never
/// where it was asked for and cannot be had something else.
pub proof fn a_table_is_opened_only_on_a_terminal(o: OptionsView, check: bool, interactive: bool)
    ensures
        o.tui && !interactive ==> mode_for(o, check, interactive) is Err,
        mode_for(o, check, interactive) matches Ok(m) ==> (m is Browse ==> check && interactive && !(o.args.len() > 1 && is_repo_id(o.args[1]))),
        mode_for(o, check, interactive) matches Ok(m) ==> (m matches ModeView::Repo(id) ==> check && o.args.len() > 1 && id == o.args[1] && is_repo_id(
            id,
        ) && !o.json),
        check && o.args.len() > 1 && is_repo_id(o.args[1]) && !o.json && !(o.tui && !interactive) ==> mode_for(o, check, interactive) == Ok::<ModeView, Seq<char>>(ModeView::Repo(o.args[1])),
        !check && !(o.tui && !interactive) ==> mode_for(o, check, interactive) == Ok::<ModeView, Seq<char>>(ModeView::Print),
{
}

} // verus!
