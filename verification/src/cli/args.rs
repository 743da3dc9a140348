//! The command line: which flags go with which command, and what is meant by
//! a near miss.

use vstd::prelude::*;
use crate::chars::{begins, chars_of, concat2, concat3, copy, parse_unsigned, same, starts_with, texts, unsigned};
use crate::cli::hf::{is_repo_id, looks_like_repo_id};
use crate::fit::opt_text;
use crate::kv::KvPrecision;

verus! {

// ------------------------------------------------------------------- near misses

/// The least of three.
pub open spec fn least3(a: nat, b: nat, c: nat) -> nat {
    if a <= b && a <= c {
        a
    } else if b <= c {
        b
    } else {
        c
    }
}

/// The edit distance of two texts: the fewest characters to add, drop or
/// exchange to make one of the other.
pub open spec fn edits(a: Seq<char>, b: Seq<char>) -> nat
    decreases a.len() + b.len(),
{
    if a.len() == 0 {
        b.len()
    } else if b.len() == 0 {
        a.len()
    } else {
        least3(
            edits(a.drop_last(), b) + 1,
            edits(a, b.drop_last()) + 1,
            edits(a.drop_last(), b.drop_last()) + (if a.last() == b.last() { 0nat } else { 1 }),
        )
    }
}

proof fn lemma_edits_bound(a: Seq<char>, b: Seq<char>)
    ensures
        edits(a, b) <= a.len() + b.len(),
    decreases a.len() + b.len(),
{
    if a.len() > 0 && b.len() > 0 {
        lemma_edits_bound(a.drop_last(), b);
    }
}

/// No edit makes a text of itself, and texts no edit apart are the same.
pub proof fn no_edits_between_same_texts(a: Seq<char>, b: Seq<char>)
    ensures
        edits(a, b) == 0 <==> a == b,
    decreases a.len() + b.len(),
{
    if a.len() == 0 {
        assert(b.len() == 0 ==> a =~= b);
    } else if b.len() == 0 {
        assert(a.len() != b.len());
    } else {
        no_edits_between_same_texts(a.drop_last(), b.drop_last());
        if a.drop_last() == b.drop_last() && a.last() == b.last() {
            assert(a =~= a.drop_last().push(a.last()));
            assert(b =~= b.drop_last().push(b.last()));
        }
        if a == b {
            assert(edits(a.drop_last(), b.drop_last()) == 0);
        }
    }
}

/// The distance is the same both ways.
pub proof fn edits_are_symmetric(a: Seq<char>, b: Seq<char>)
    ensures
        edits(a, b) == edits(b, a),
    decreases a.len() + b.len(),
{
    if a.len() > 0 && b.len() > 0 {
        edits_are_symmetric(a.drop_last(), b);
        edits_are_symmetric(a, b.drop_last());
        edits_are_symmetric(a.drop_last(), b.drop_last());
    }
}

/// Row `i` of the table of distances between the starts of two texts.
spec fn is_row(row: Seq<usize>, a: Seq<char>, b: Seq<char>, i: int) -> bool {
    row.len() == b.len() + 1 && forall|j: int| 0 <= j <= b.len() ==> #[trigger] row[j] as nat == edits(
        a.subrange(0, i),
        b.subrange(0, j),
    )
}

/// The edit distance of two texts, row by row.
pub fn distance(a: &str, b: &str) -> (r: usize)
    requires
        a@.len() + b@.len() < usize::MAX,
    ensures
        r as nat == edits(a@, b@),
{
    let x = chars_of(a);
    let y = chars_of(b);
    let m: usize = y.len();
    let mut prev: Vec<usize> = Vec::new();
    let mut j: usize = 0;
    while j <= m
        invariant
            j <= m + 1,
            m == y@.len(),
            m < usize::MAX,
            prev@.len() == j,
            forall|k: int| 0 <= k < j ==> #[trigger] prev@[k] == k,
        decreases m + 1 - j,
    {
        prev.push(j);
        j += 1;
    }
    assert(is_row(prev@, x@, y@, 0)) by {
        assert(x@.subrange(0, 0) =~= Seq::<char>::empty());
        assert forall|k: int| 0 <= k <= y@.len() implies #[trigger] prev@[k] as nat == edits(x@.subrange(0, 0), y@.subrange(0, k)) by {
            assert(y@.subrange(0, k).len() == k);
        }
    }
    let mut i: usize = 1;
    while i <= x.len()
        invariant
            1 <= i <= x@.len() + 1,
            m == y@.len(),
            x@.len() + y@.len() < usize::MAX,
            is_row(prev@, x@, y@, i - 1),
        decreases x@.len() + 1 - i,
    {
        let mut cur: Vec<usize> = Vec::new();
        cur.push(i);
        let mut k: usize = 1;
        assert(edits(x@.subrange(0, i as int), y@.subrange(0, 0)) == i) by {
            assert(x@.subrange(0, i as int).len() == i);
            assert(y@.subrange(0, 0).len() == 0);
        }
        while k <= m
            invariant
                1 <= k <= m + 1,
                1 <= i <= x@.len(),
                m == y@.len(),
                x@.len() + y@.len() < usize::MAX,
                is_row(prev@, x@, y@, i - 1),
                cur@.len() == k,
                forall|q: int| 0 <= q < k ==> #[trigger] cur@[q] as nat == edits(x@.subrange(0, i as int), y@.subrange(0, q)),
            decreases m + 1 - k,
        {
            let ghost p = x@.subrange(0, i as int);
            let ghost q = y@.subrange(0, k as int);
            proof {
                assert(p.drop_last() =~= x@.subrange(0, i - 1));
                assert(q.drop_last() =~= y@.subrange(0, k - 1));
                assert(p.last() == x@[i - 1]);
                assert(q.last() == y@[k - 1]);
                lemma_edits_bound(p.drop_last(), q);
                lemma_edits_bound(p, q.drop_last());
                lemma_edits_bound(p.drop_last(), q.drop_last());
                assert(prev@[k as int] as nat == edits(p.drop_last(), q));
                assert(prev@[k - 1] as nat == edits(p.drop_last(), q.drop_last()));
                assert(cur@[k - 1] as nat == edits(p, q.drop_last()));
            }
            let sub: usize = if x[i - 1] != y[k - 1] { 1 } else { 0 };
            let up: usize = prev[k] + 1;
            let back: usize = cur[k - 1] + 1;
            let cross: usize = prev[k - 1] + sub;
            let best: usize = if up <= back && up <= cross {
                up
            } else if back <= cross {
                back
            } else {
                cross
            };
            cur.push(best);
            k += 1;
        }
        prev = cur;
        assert(is_row(prev@, x@, y@, i as int));
        i += 1;
    }
    assert(x@.subrange(0, x@.len() as int) =~= x@);
    assert(y@.subrange(0, y@.len() as int) =~= y@);
    prev[m]
}

/// A command is close enough to suggest: no more than two edits away, and not
/// as far as nothing at all.
pub open spec fn is_near(input: Seq<char>, c: Seq<char>) -> bool {
    edits(input, c) <= 2 && edits(input, c) < c.len()
}

/// The nearer of what was found and a command; the earlier of two alike.
pub open spec fn nearer(best: Option<Seq<char>>, input: Seq<char>, c: Seq<char>) -> Option<Seq<char>> {
    if !is_near(input, c) {
        best
    } else {
        match best {
            Some(b) => if edits(input, c) < edits(input, b) {
                Some(c)
            } else {
                best
            },
            None => Some(c),
        }
    }
}

/// The nearest command.
pub open spec fn nearest_command(input: Seq<char>) -> Option<Seq<char>> {
    let a = nearer(None, input, "check"@);
    let b = nearer(a, input, "verify"@);
    let c = nearer(b, input, "fit"@);
    let d = nearer(c, input, "gate"@);
    let e = nearer(d, input, "share"@);
    nearer(e, input, "doctor"@)
}

fn nearer_of(best: Option<&'static str>, input: &str, c: &'static str) -> (r: Option<&'static str>)
    requires
        input@.len() + 16 < usize::MAX,
        0 < c@.len() <= 8,
        best matches Some(b) ==> b@.len() <= 8,
    ensures
        crate::report::opt_str(r) == nearer(crate::report::opt_str(best), input@, c@),
        r matches Some(b) ==> b@.len() <= 8,
{
    let d: usize = distance(input, c);
    if !(d <= 2 && d < c.unicode_len()) {
        return best;
    }
    match best {
        Some(b) => if d < distance(input, b) {
            Some(c)
        } else {
            best
        },
        None => Some(c),
    }
}

/// The closest command name, if one is close enough to be worth suggesting:
/// suggesting one for a word that is like none is worse than saying nothing.
pub fn did_you_mean(input: &str) -> (r: Option<&'static str>)
    requires
        input@.len() + 16 < usize::MAX,
    ensures
        crate::report::opt_str(r) == nearest_command(input@),
{
    proof {
        reveal_strlit("check");
        reveal_strlit("verify");
        reveal_strlit("fit");
        reveal_strlit("gate");
        reveal_strlit("share");
        reveal_strlit("doctor");
    }
    let a = nearer_of(None, input, "check");
    let b = nearer_of(a, input, "verify");
    let c = nearer_of(b, input, "fit");
    let d = nearer_of(c, input, "gate");
    let e = nearer_of(d, input, "share");
    nearer_of(e, input, "doctor")
}

// ------------------------------------------------------------------ the table

/// Which flags each command actually reads.
pub open spec fn takes(cmd: Seq<char>, flag: Seq<char>) -> bool {
    if cmd == "check"@ {
        flag == "--json"@ || flag == "--kv"@ || flag == "--top"@ || flag == "--all"@ || flag == "--tui"@ || flag
            == "--no-tui"@
    } else if cmd == "verify"@ {
        flag == "--runtime"@ || flag == "--kv"@
    } else if cmd == "doctor"@ {
        flag == "--kv"@
    } else if cmd == "share"@ {
        flag == "--record"@ || flag == "--print"@
    } else {
        false
    }
}

/// Kept as one table rather than a test at each use, because the failure this
/// prevents is a missing test.
pub fn accepts(cmd: &str, flag: &str) -> (r: bool)
    ensures
        r == takes(cmd@, flag@),
{
    if same(cmd, "check") {
        same(flag, "--json") || same(flag, "--kv") || same(flag, "--top") || same(flag, "--all") || same(flag, "--tui") || same(
            flag,
            "--no-tui",
        )
    } else if same(cmd, "verify") {
        same(flag, "--runtime") || same(flag, "--kv")
    } else if same(cmd, "doctor") {
        same(flag, "--kv")
    } else if same(cmd, "share") {
        same(flag, "--record") || same(flag, "--print")
    } else {
        false
    }
}

// -------------------------------------------------------------- taking flags

/// The first position of `flag`.
pub open spec fn flag_at(args: Seq<Seq<char>>, flag: Seq<char>) -> Option<int>
    decreases args.len(),
{
    if args.len() == 0 {
        None
    } else {
        match flag_at(args.drop_last(), flag) {
            Some(i) => Some(i),
            None => if args.last() == flag {
                Some(args.len() - 1)
            } else {
                None
            },
        }
    }
}

/// The arguments without the first `flag`.
pub open spec fn without_flag(args: Seq<Seq<char>>, flag: Seq<char>) -> Seq<Seq<char>> {
    match flag_at(args, flag) {
        Some(i) => args.remove(i),
        None => args,
    }
}

/// The value behind the first `flag`: nothing where the flag is not given, an
/// error where nothing follows it.
pub open spec fn flag_value(args: Seq<Seq<char>>, flag: Seq<char>) -> Result<Option<Seq<char>>, Seq<char>> {
    match flag_at(args, flag) {
        Some(i) => if i + 1 < args.len() {
            Ok(Some(args[i + 1]))
        } else {
            Err(flag + " needs a value"@)
        },
        None => Ok(None),
    }
}

/// The arguments without the first `flag` and the value behind it.
pub open spec fn without_value(args: Seq<Seq<char>>, flag: Seq<char>) -> Seq<Seq<char>> {
    match flag_at(args, flag) {
        Some(i) => if i + 1 < args.len() {
            args.remove(i).remove(i)
        } else {
            args.remove(i)
        },
        None => args,
    }
}

pub proof fn lemma_flag_at(args: Seq<Seq<char>>, flag: Seq<char>)
    ensures
        match flag_at(args, flag) {
            Some(i) => 0 <= i < args.len() && args[i] == flag && forall|j: int| 0 <= j < i ==> args[j] != flag,
            None => forall|j: int| 0 <= j < args.len() ==> args[j] != flag,
        },
    decreases args.len(),
{
    if args.len() > 0 {
        lemma_flag_at(args.drop_last(), flag);
        let d = args.drop_last();
        assert(forall|j: int| 0 <= j < d.len() ==> d[j] == args[j]);
    }
}

fn find_flag(args: &Vec<String>, flag: &str) -> (r: Option<usize>)
    ensures
        match r {
            Some(i) => flag_at(texts(args@), flag@) == Some(i as int) && i < args@.len(),
            None => flag_at(texts(args@), flag@) is None,
        },
{
    let ghost all = texts(args@);
    proof {
        lemma_flag_at(all, flag@);
    }
    let mut i: usize = 0;
    while i < args.len()
        invariant
            i <= args@.len(),
            all == texts(args@),
            forall|j: int| 0 <= j < i ==> all[j] != flag@,
            match flag_at(all, flag@) {
                Some(i) => 0 <= i < all.len() && all[i] == flag@ && forall|j: int| 0 <= j < i ==> all[j] != flag@,
                None => forall|j: int| 0 <= j < all.len() ==> all[j] != flag@,
            },
        decreases args@.len() - i,
    {
        assert(all[i as int] == args@[i as int]@);
        if same(args[i].as_str(), flag) {
            return Some(i);
        }
        i += 1;
    }
    None
}

/// Remove `flag` from `args` if present, reporting whether it was there.
pub fn take_flag(args: &mut Vec<String>, flag: &str) -> (r: bool)
    ensures
        r == (flag_at(texts(old(args)@), flag@) is Some),
        texts(final(args)@) == without_flag(texts(old(args)@), flag@),
{
    match find_flag(args, flag) {
        Some(i) => {
            let _gone = args.remove(i);
            assert(texts(args@) =~= texts(old(args)@).remove(i as int));
            true
        },
        None => false,
    }
}

/// Remove `flag` and the value after it, if present. A flag with nothing after
/// it is an error, not an absent flag.
pub fn take_value(args: &mut Vec<String>, flag: &str) -> (r: Result<Option<String>, String>)
    ensures
        match r {
            Ok(v) => flag_value(texts(old(args)@), flag@) == Ok::<Option<Seq<char>>, Seq<char>>(opt_text(v)),
            Err(e) => flag_value(texts(old(args)@), flag@) == Err::<Option<Seq<char>>, Seq<char>>(e@),
        },
        texts(final(args)@) == without_value(texts(old(args)@), flag@),
{
    let ghost all = texts(args@);
    match find_flag(args, flag) {
        Some(i) => {
            let _gone = args.remove(i);
            assert(texts(args@) =~= all.remove(i as int));
            if i >= args.len() {
                return Err(concat2(flag, " needs a value"));
            }
            let ghost rest = texts(args@);
            let v = args.remove(i);
            assert(v@ == rest[i as int]);
            assert(texts(args@) =~= rest.remove(i as int));
            Ok(Some(v))
        },
        None => Ok(None),
    }
}

// ----------------------------------------------------------------- the options

/// What the command line asks for.
pub struct Options {
    pub json: bool,
    pub runtime: Option<String>,
    pub kv: KvPrecision,
    pub kv_given: bool,
    /// Every quantisation, and no row limit unless one is given.
    pub all: bool,
    pub top: Option<usize>,
    pub top_given: bool,
    pub record: Option<String>,
    pub print: bool,
    pub tui: bool,
    pub no_tui: bool,
    /// The command and what follows it.
    pub args: Vec<String>,
}

/// What [`Options`] hold.
pub struct OptionsView {
    pub json: bool,
    pub runtime: Option<Seq<char>>,
    pub kv: KvPrecision,
    pub kv_given: bool,
    pub all: bool,
    pub top: Option<nat>,
    pub top_given: bool,
    pub record: Option<Seq<char>>,
    pub print: bool,
    pub tui: bool,
    pub no_tui: bool,
    pub args: Seq<Seq<char>>,
}

impl View for Options {
    type V = OptionsView;

    open spec fn view(&self) -> OptionsView {
        OptionsView {
            json: self.json,
            runtime: opt_text(self.runtime),
            kv: self.kv,
            kv_given: self.kv_given,
            all: self.all,
            top: match self.top {
                Some(n) => Some(n as nat),
                None => None,
            },
            top_given: self.top_given,
            record: opt_text(self.record),
            print: self.print,
            tui: self.tui,
            no_tui: self.no_tui,
            args: texts(self.args@),
        }
    }
}

/// How many rows are shown unless asked otherwise.
pub const DEFAULT_TOP: usize = 20;

/// The KV precision that is asked for.
pub open spec fn kv_in(v: Option<Seq<char>>) -> Result<KvPrecision, Seq<char>> {
    match v {
        Some(s) => match KvPrecision::named(s) {
            Some(p) => Ok(p),
            None => Err("unknown --kv value '"@ + s + "' (expected f16, q8 or q4)"@),
        },
        None => Ok(KvPrecision::F16),
    }
}

/// The row limit that is asked for.
pub open spec fn top_in(v: Option<Seq<char>>, all: bool) -> Result<Option<nat>, Seq<char>> {
    match v {
        Some(s) => match unsigned(s, usize::MAX as nat) {
            Some(n) => if n > 0 {
                Ok(Some(n))
            } else {
                Err("--top needs a positive number, got '"@ + s + "'"@)
            },
            None => Err("--top needs a positive number, got '"@ + s + "'"@),
        },
        None => if all {
            Ok(None)
        } else {
            Ok(Some(DEFAULT_TOP as nat))
        },
    }
}

fn read_kv(v: &Option<String>) -> (r: Result<KvPrecision, String>)
    ensures
        match r {
            Ok(p) => kv_in(opt_text(*v)) == Ok::<KvPrecision, Seq<char>>(p),
            Err(e) => kv_in(opt_text(*v)) == Err::<KvPrecision, Seq<char>>(e@),
        },
{
    match v {
        Some(s) => match KvPrecision::parse(s.as_str()) {
            Some(p) => Ok(p),
            None => Err(concat3("unknown --kv value '", s.as_str(), "' (expected f16, q8 or q4)")),
        },
        None => Ok(KvPrecision::F16),
    }
}

pub open spec fn opt_nat(o: Option<usize>) -> Option<nat> {
    match o {
        Some(n) => Some(n as nat),
        None => None,
    }
}

fn read_top(v: &Option<String>, all: bool) -> (r: Result<Option<usize>, String>)
    ensures
        match r {
            Ok(n) => top_in(opt_text(*v), all) == Ok::<Option<nat>, Seq<char>>(opt_nat(n)),
            Err(e) => top_in(opt_text(*v), all) == Err::<Option<nat>, Seq<char>>(e@),
        },
{
    match v {
        Some(s) => match parse_unsigned(s.as_str(), usize::MAX as u64) {
            Some(n) => if n > 0 {
                proof {
                    crate::probe::cpu::lemma_unsigned_bound(s@, usize::MAX as nat);
                }
                Ok(Some(n as usize))
            } else {
                Err(concat3("--top needs a positive number, got '", s.as_str(), "'"))
            },
            None => Err(concat3("--top needs a positive number, got '", s.as_str(), "'")),
        },
        None => if all {
            Ok(None)
        } else {
            Ok(Some(DEFAULT_TOP))
        },
    }
}

/// The flags are stripped before the command is looked at, so they may appear
/// anywhere. They are taken in this order, and the first that is wrong is what
/// is said.
pub open spec fn options_in(a: Seq<Seq<char>>) -> Result<OptionsView, Seq<char>> {
    let b = without_flag(a, "--json"@);
    let c = without_value(b, "--runtime"@);
    let d = without_value(c, "--kv"@);
    let e = without_flag(d, "--all"@);
    let f = without_value(e, "--top"@);
    let g = without_value(f, "--record"@);
    let h = without_flag(g, "--print"@);
    let i = without_flag(h, "--tui"@);
    let j = without_flag(i, "--no-tui"@);
    let all = flag_at(d, "--all"@) is Some;
    match flag_value(b, "--runtime"@) {
        Err(m) => Err(m),
        Ok(runtime) => match flag_value(c, "--kv"@) {
            Err(m) => Err(m),
            Ok(kv_arg) => match kv_in(kv_arg) {
                Err(m) => Err(m),
                Ok(kv) => match flag_value(e, "--top"@) {
                    Err(m) => Err(m),
                    Ok(top_arg) => match top_in(top_arg, all) {
                        Err(m) => Err(m),
                        Ok(top) => match flag_value(f, "--record"@) {
                            Err(m) => Err(m),
                            Ok(record) => Ok(
                                OptionsView {
                                    json: flag_at(a, "--json"@) is Some,
                                    runtime,
                                    kv,
                                    kv_given: kv_arg is Some,
                                    all,
                                    top,
                                    top_given: top_arg is Some,
                                    record,
                                    print: flag_at(g, "--print"@) is Some,
                                    tui: flag_at(h, "--tui"@) is Some,
                                    no_tui: flag_at(i, "--no-tui"@) is Some,
                                    args: j,
                                },
                            ),
                        },
                    },
                },
            },
        },
    }
}

/// Read the options off the command line.
pub fn parse_options(args: Vec<String>) -> (r: Result<Options, String>)
    ensures
        match r {
            Ok(o) => options_in(texts(args@)) == Ok::<OptionsView, Seq<char>>(o@),
            Err(e) => options_in(texts(args@)) == Err::<OptionsView, Seq<char>>(e@),
        },
{
    let mut a = args;
    let json = take_flag(&mut a, "--json");
    let runtime = match take_value(&mut a, "--runtime") {
        Ok(v) => v,
        Err(e) => return Err(e),
    };
    let kv_arg = match take_value(&mut a, "--kv") {
        Ok(v) => v,
        Err(e) => return Err(e),
    };
    let kv = match read_kv(&kv_arg) {
        Ok(p) => p,
        Err(e) => return Err(e),
    };
    let all = take_flag(&mut a, "--all");
    let top_arg = match take_value(&mut a, "--top") {
        Ok(v) => v,
        Err(e) => return Err(e),
    };
    let top = match read_top(&top_arg, all) {
        Ok(n) => n,
        Err(e) => return Err(e),
    };
    let record = match take_value(&mut a, "--record") {
        Ok(v) => v,
        Err(e) => return Err(e),
    };
    let print = take_flag(&mut a, "--print");
    let tui = take_flag(&mut a, "--tui");
    let no_tui = take_flag(&mut a, "--no-tui");
    let kv_given = kv_arg.is_some();
    let top_given = top_arg.is_some();
    Ok(Options { json, runtime, kv, kv_given, all, top, top_given, record, print, tui, no_tui, args: a })
}

// ----------------------------------------------------------------- the command

/// What to do.
#[derive(Debug, Clone, Copy, PartialEq, Eq, Structural)]
pub enum Command {
    Help,
    Version,
    Check,
    Verify,
    Fit,
    Gate,
    Share,
    Doctor,
}

/// The command's name: the first argument, `check` where there is none.
pub open spec fn command_name(args: Seq<Seq<char>>) -> Seq<char> {
    if args.len() > 0 {
        args[0]
    } else {
        "check"@
    }
}

pub open spec fn command_named(c: Seq<char>) -> Option<Command> {
    if c == "check"@ {
        Some(Command::Check)
    } else if c == "verify"@ {
        Some(Command::Verify)
    } else if c == "fit"@ {
        Some(Command::Fit)
    } else if c == "gate"@ {
        Some(Command::Gate)
    } else if c == "share"@ {
        Some(Command::Share)
    } else if c == "doctor"@ {
        Some(Command::Doctor)
    } else {
        None
    }
}

/// The first argument that looks like a flag; every known one was taken.
pub open spec fn stray_option(args: Seq<Seq<char>>) -> Option<Seq<char>>
    decreases args.len(),
{
    if args.len() == 0 {
        None
    } else if starts_with(args[0], "-"@) {
        Some(args[0])
    } else {
        stray_option(args.subrange(1, args.len() as int))
    }
}

/// The first flag that was given and that the command does not read.
pub open spec fn idle_flag(o: OptionsView, cmd: Seq<char>) -> Option<Seq<char>> {
    if o.json && !takes(cmd, "--json"@) {
        Some("--json"@)
    } else if o.runtime is Some && !takes(cmd, "--runtime"@) {
        Some("--runtime"@)
    } else if o.kv_given && !takes(cmd, "--kv"@) {
        Some("--kv"@)
    } else if o.top_given && !takes(cmd, "--top"@) {
        Some("--top"@)
    } else if o.all && !takes(cmd, "--all"@) {
        Some("--all"@)
    } else if o.record is Some && !takes(cmd, "--record"@) {
        Some("--record"@)
    } else if o.print && !takes(cmd, "--print"@) {
        Some("--print"@)
    } else if o.tui && !takes(cmd, "--tui"@) {
        Some("--tui"@)
    } else if o.no_tui && !takes(cmd, "--no-tui"@) {
        Some("--no-tui"@)
    } else {
        None
    }
}

/// What the options ask for. A flag that does nothing is refused: silently
/// ignoring it is the worse failure.
pub open spec fn command_in(o: OptionsView) -> Result<Command, Seq<char>> {
    let cmd = command_name(o.args);
    if cmd == "-h"@ || cmd == "--help"@ || cmd == "help"@ {
        Ok(Command::Help)
    } else if cmd == "-V"@ || cmd == "--version"@ || cmd == "version"@ {
        Ok(Command::Version)
    } else {
        match stray_option(o.args) {
            Some(bad) => Err("unknown option '"@ + bad + "' -- run `zc --help`"@),
            None => match idle_flag(o, cmd) {
                Some(flag) => Err("`zc "@ + cmd + "` does not take "@ + flag + " -- run `zc --help`"@),
                None => match command_named(cmd) {
                    Some(c) => Ok(c),
                    None => Err(
                        match nearest_command(cmd) {
                            Some(near) => "unknown command '"@ + cmd + "' -- did you mean `zc "@ + near + "`?"@,
                            None => "unknown command '"@ + cmd + "' -- run `zc --help`"@,
                        },
                    ),
                },
            },
        }
    }
}

fn find_stray(args: &Vec<String>) -> (r: Option<usize>)
    ensures
        match r {
            Some(i) => i < args@.len() && stray_option(texts(args@)) == Some(args@[i as int]@),
            None => stray_option(texts(args@)) is None,
        },
{
    let ghost all = texts(args@);
    let mut i: usize = 0;
    assert(all.subrange(0, all.len() as int) =~= all);
    while i < args.len()
        invariant
            i <= args@.len(),
            all == texts(args@),
            stray_option(all.subrange(i as int, all.len() as int)) == stray_option(all),
        decreases args@.len() - i,
    {
        let ghost rest = all.subrange(i as int, all.len() as int);
        assert(rest[0] == args@[i as int]@);
        assert(rest.subrange(1, rest.len() as int) =~= all.subrange(i + 1, all.len() as int));
        if begins(args[i].as_str(), "-") {
            return Some(i);
        }
        i += 1;
    }
    None
}

fn find_idle(o: &Options, cmd: &str) -> (r: Option<&'static str>)
    ensures
        crate::report::opt_str(r) == idle_flag(o@, cmd@),
{
    if o.json && !accepts(cmd, "--json") {
        Some("--json")
    } else if o.runtime.is_some() && !accepts(cmd, "--runtime") {
        Some("--runtime")
    } else if o.kv_given && !accepts(cmd, "--kv") {
        Some("--kv")
    } else if o.top_given && !accepts(cmd, "--top") {
        Some("--top")
    } else if o.all && !accepts(cmd, "--all") {
        Some("--all")
    } else if o.record.is_some() && !accepts(cmd, "--record") {
        Some("--record")
    } else if o.print && !accepts(cmd, "--print") {
        Some("--print")
    } else if o.tui && !accepts(cmd, "--tui") {
        Some("--tui")
    } else if o.no_tui && !accepts(cmd, "--no-tui") {
        Some("--no-tui")
    } else {
        None
    }
}

fn command_of(c: &str) -> (r: Option<Command>)
    ensures
        r == command_named(c@),
{
    if same(c, "check") {
        Some(Command::Check)
    } else if same(c, "verify") {
        Some(Command::Verify)
    } else if same(c, "fit") {
        Some(Command::Fit)
    } else if same(c, "gate") {
        Some(Command::Gate)
    } else if same(c, "share") {
        Some(Command::Share)
    } else if same(c, "doctor") {
        Some(Command::Doctor)
    } else {
        None
    }
}

/// What the options ask for, or why they are refused.
pub fn command(o: &Options) -> (r: Result<Command, String>)
    requires
        command_name(o@.args).len() + 16 < usize::MAX,
    ensures
        match r {
            Ok(c) => command_in(o@) == Ok::<Command, Seq<char>>(c),
            Err(e) => command_in(o@) == Err::<Command, Seq<char>>(e@),
        },
{
    assert(texts(o.args@).len() == o.args@.len());
    let cmd = if o.args.len() > 0 {
        assert(texts(o.args@)[0] == o.args@[0]@);
        o.args[0].as_str()
    } else {
        "check"
    };
    if same(cmd, "-h") || same(cmd, "--help") || same(cmd, "help") {
        return Ok(Command::Help);
    }
    if same(cmd, "-V") || same(cmd, "--version") || same(cmd, "version") {
        return Ok(Command::Version);
    }
    if let Some(i) = find_stray(&o.args) {
        return Err(concat3("unknown option '", o.args[i].as_str(), "' -- run `zc --help`"));
    }
    if let Some(flag) = find_idle(o, cmd) {
        let mut e = copy("`zc ");
        e.append(cmd);
        e.append("` does not take ");
        e.append(flag);
        e.append(" -- run `zc --help`");
        return Err(e);
    }
    match command_of(cmd) {
        Some(c) => Ok(c),
        None => match did_you_mean(cmd) {
            Some(near) => {
                let mut e = copy("unknown command '");
                e.append(cmd);
                e.append("' -- did you mean `zc ");
                e.append(near);
                e.append("`?");
                Err(e)
            },
            None => Err(concat3("unknown command '", cmd, "' -- run `zc --help`")),
        },
    }
}

/// A flag on a command that does not read it never gets through.
pub proof fn no_flag_is_ignored(o: OptionsView)
    ensures
        command_in(o) matches Ok(c) && c != Command::Help && c != Command::Version ==> {
            let cmd = command_name(o.args);
            &&& o.json ==> takes(cmd, "--json"@)
            &&& o.runtime is Some ==> takes(cmd, "--runtime"@)
            &&& o.kv_given ==> takes(cmd, "--kv"@)
            &&& o.top_given ==> takes(cmd, "--top"@)
            &&& o.all ==> takes(cmd, "--all"@)
            &&& o.record is Some ==> takes(cmd, "--record"@)
            &&& o.print ==> takes(cmd, "--print"@)
            &&& o.tui ==> takes(cmd, "--tui"@)
            &&& o.no_tui ==> takes(cmd, "--no-tui"@)
            &&& stray_option(o.args) is None
        },
{
}

/// Whether the table is opened on the screen: a human at both ends of the
/// pipe, a terminal that can, and nothing that asks for text.
pub fn is_interactive(stdout_tty: bool, stdin_tty: bool, o: &Options, dumb: bool) -> (r: bool)
    ensures
        r == (stdout_tty && stdin_tty && !o.json && !o.no_tui && !dumb),
{
    stdout_tty && stdin_tty && !o.json && !o.no_tui && !dumb
}

/// What `zc check` and the commands beside it show.
#[derive(Debug, PartialEq, Eq)]
pub enum Mode {
    /// Plain text or JSON.
    Print,
    /// The browsable table.
    Browse,
    /// One model that is not in the catalog, fetched by its repository id.
    Repo(String),
}

pub enum ModeView {
    Print,
    Browse,
    Repo(Seq<char>),
}

impl View for Mode {
    type V = ModeView;

    open spec fn view(&self) -> ModeView {
        match self {
            Mode::Print => ModeView::Print,
            Mode::Browse => ModeView::Browse,
            Mode::Repo(id) => ModeView::Repo(id@),
        }
    }
}

/// What was asked for and cannot be had is an error, never something else in
/// its place. A repository id never opens the table: the fetch and its URLs
/// must be visible.
pub open spec fn mode_for(o: OptionsView, check: bool, interactive: bool) -> Result<ModeView, Seq<char>> {
    if o.tui && !interactive {
        Err("--tui needs an interactive terminal on both stdin and stdout"@)
    } else if check && o.args.len() > 1 && is_repo_id(o.args[1]) {
        if o.json {
            Err(
                "`zc check <hf-repo-id>` has no --json output yet -- it reports memory\nonly, and the shape is not settled. Drop --json, or use a catalog id."@,
            )
        } else {
            Ok(ModeView::Repo(o.args[1]))
        }
    } else if check && interactive {
        Ok(ModeView::Browse)
    } else {
        Ok(ModeView::Print)
    }
}

pub fn mode(o: &Options, c: Command, interactive: bool) -> (r: Result<Mode, String>)
    ensures
        match r {
            Ok(m) => mode_for(o@, c == Command::Check, interactive) == Ok::<ModeView, Seq<char>>(m@),
            Err(e) => mode_for(o@, c == Command::Check, interactive) == Err::<ModeView, Seq<char>>(e@),
        },
{
    if o.tui && !interactive {
        return Err(copy("--tui needs an interactive terminal on both stdin and stdout"));
    }
    let check = matches!(c, Command::Check);
    assert(texts(o.args@).len() == o.args@.len());
    if check && o.args.len() > 1 {
        assert(texts(o.args@)[1] == o.args@[1]@);
        if looks_like_repo_id(o.args[1].as_str()) {
            if o.json {
                return Err(
                    copy(
                        "`zc check <hf-repo-id>` has no --json output yet -- it reports memory\nonly, and the shape is not settled. Drop --json, or use a catalog id.",
                    ),
                );
            }
            return Ok(Mode::Repo(copy(o.args[1].as_str())));
        }
    }
    if check && interactive {
        Ok(Mode::Browse)
    } else {
        Ok(Mode::Print)
    }
}

} // verus!
