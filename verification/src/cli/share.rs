//! `zc share`: hand one calibration record to GitHub without opening a socket.
//!
//! The record travels in a URL that the browser opens, so there is no outbound
//! connection, no token and no credential.

use vstd::prelude::*;
use crate::chars::{concat2, concat3, copy, dec, decimal, left, lines, lines_of, pad_right, same, chars_of, texts, trim, trimmed};
use crate::json;
use crate::json::{boolean_at, number_at, number_text, slices, string_at};
use crate::probe::storage::byte_len;
use crate::report::{bool_str, bool_text, opt_str, redact, redacted};
use crate::runtime::calibrate::{fingerprint, fingerprint_text, is_hex_lower};
use vstd::utf8::encode_utf8;

verus! {

/// GitHub refuses a longer URL. An encoded record is around 900 bytes, so this
/// is head-room, and beyond it copying by hand is offered instead.
pub const MAX_URL: usize = 6144;

pub const DIR: &'static str = "data/calibration/community";

// ------------------------------------------------------------------- encoding

/// A byte that stands for itself in a URL.
pub open spec fn is_unreserved(b: u8) -> bool {
    65 <= b <= 90 || 97 <= b <= 122 || 48 <= b <= 57 || b == 45 || b == 95 || b == 46 || b == 126
}

/// The upper-case hexadecimal digit for `d`, where `d < 16`.
pub open spec fn hex_upper(d: int) -> char {
    if d < 10 {
        (48 + d) as char
    } else {
        (55 + d) as char
    }
}

pub open spec fn encoded_byte(b: u8) -> Seq<char> {
    if is_unreserved(b) {
        seq![b as char]
    } else {
        seq!['%', hex_upper(b as int / 16), hex_upper(b as int % 16)]
    }
}

pub open spec fn encoded(b: Seq<u8>) -> Seq<char>
    decreases b.len(),
{
    if b.len() == 0 {
        Seq::empty()
    } else {
        encoded(b.drop_last()) + encoded_byte(b.last())
    }
}

fn hex_upper_char(d: u8) -> (c: char)
    requires
        d < 16,
    ensures
        c == hex_upper(d as int),
{
    if d < 10 {
        (48u8 + d) as char
    } else {
        (55u8 + d) as char
    }
}

/// Percent-encode everything outside the unreserved set, slashes too: that
/// keeps the rule to one line.
pub fn encode(s: &str) -> (r: String)
    ensures
        r@ == encoded(encode_utf8(s@)),
{
    let b = s.as_bytes();
    let mut o = String::new();
    let mut i: usize = 0;
    while i < b.len()
        invariant
            i <= b@.len(),
            o@ == encoded(b@.subrange(0, i as int)),
        decreases b@.len() - i,
    {
        assert(b@.subrange(0, i + 1).drop_last() =~= b@.subrange(0, i as int));
        let ghost before = o@;
        let x: u8 = b[i];
        if (65 <= x && x <= 90) || (97 <= x && x <= 122) || (48 <= x && x <= 57) || x == 45 || x == 95 || x == 46 || x
            == 126 {
            o.push(x as char);
        } else {
            o.push('%');
            o.push(hex_upper_char(x / 16));
            o.push(hex_upper_char(x % 16));
        }
        assert(o@ =~= before + encoded_byte(x));
        i += 1;
    }
    assert(b@.subrange(0, i as int) =~= b@);
    o
}

/// What an encoded text stands for: a percent sign and two digits are a byte,
/// anything else is itself.
pub open spec fn decoded(s: Seq<char>) -> Seq<u8>
    decreases s.len(),
{
    if s.len() == 0 {
        Seq::empty()
    } else if s[0] == '%' && s.len() >= 3 {
        seq![(hex_of(s[1]) * 16 + hex_of(s[2])) as u8] + decoded(s.subrange(3, s.len() as int))
    } else {
        seq![s[0] as u8] + decoded(s.subrange(1, s.len() as int))
    }
}

pub open spec fn hex_of(c: char) -> int {
    if '0' <= c <= '9' {
        c as int - 48
    } else {
        c as int - 55
    }
}

proof fn lemma_encoded_first(b: Seq<u8>)
    requires
        b.len() > 0,
    ensures
        encoded(b) == encoded_byte(b[0]) + encoded(b.subrange(1, b.len() as int)),
    decreases b.len(),
{
    let rest = b.subrange(1, b.len() as int);
    if b.len() == 1 {
        assert(b.drop_last() =~= Seq::<u8>::empty());
        assert(rest =~= Seq::<u8>::empty());
        assert(encoded(b) =~= encoded_byte(b[0]) + encoded(rest));
    } else {
        lemma_encoded_first(b.drop_last());
        assert(b.drop_last().subrange(1, b.len() - 1) =~= rest.drop_last());
        assert(encoded(b) =~= encoded_byte(b[0]) + encoded(rest));
    }
}

proof fn lemma_byte_decodes(b: u8, rest: Seq<char>)
    ensures
        decoded(encoded_byte(b) + rest) == seq![b] + decoded(rest),
{
    let s = encoded_byte(b) + rest;
    if is_unreserved(b) {
        assert(s[0] == b as char);
        assert(s.subrange(1, s.len() as int) =~= rest);
        assert(s[0] != '%');
    } else {
        assert(s[0] == '%' && s[1] == hex_upper(b as int / 16) && s[2] == hex_upper(b as int % 16));
        assert(s.subrange(3, s.len() as int) =~= rest);
        assert(hex_of(s[1]) == b as int / 16);
        assert(hex_of(s[2]) == b as int % 16);
    }
}

/// What is encoded is decoded to what it was, whatever it holds.
pub proof fn encoding_round_trips(b: Seq<u8>)
    ensures
        decoded(encoded(b)) == b,
    decreases b.len(),
{
    if b.len() == 0 {
        assert(decoded(encoded(b)) =~= b);
    } else {
        let rest = b.subrange(1, b.len() as int);
        lemma_encoded_first(b);
        encoding_round_trips(rest);
        lemma_byte_decodes(b[0], encoded(rest));
        assert(seq![b[0]] + rest =~= b);
    }
}

/// An encoded value holds no separator of a query: it cannot leak.
pub proof fn an_encoded_value_has_no_separator(b: Seq<u8>)
    ensures
        forall|i: int| 0 <= i < encoded(b).len() ==> (#[trigger] encoded(b)[i]) != '&' && encoded(b)[i] != '#' && encoded(b)[i]
            != '+' && encoded(b)[i] != '=' && encoded(b)[i] != ' ',
    decreases b.len(),
{
    if b.len() > 0 {
        let rest = encoded(b.drop_last());
        an_encoded_value_has_no_separator(b.drop_last());
        let e = encoded_byte(b.last());
        assert forall|i: int| 0 <= i < encoded(b).len() implies (#[trigger] encoded(b)[i]) != '&' && encoded(b)[i] != '#' && encoded(b)[i]
            != '+' && encoded(b)[i] != '=' && encoded(b)[i] != ' ' by {
            if i < rest.len() {
                assert(encoded(b)[i] == rest[i]);
            } else {
                assert(encoded(b)[i] == e[i - rest.len()]);
            }
        }
    }
}

// ------------------------------------------------------------------ file names

/// A machine's fingerprint: sixteen lower-case hexadecimal digits.
pub open spec fn is_fingerprint(hw: Seq<char>) -> bool {
    hw.len() == 16 && forall|i: int| 0 <= i < hw.len() ==> is_hex_lower(#[trigger] hw[i])
}

/// The file a record goes to: the machine, and the record's own hash.
pub open spec fn filename_for(line: Seq<char>) -> Result<Seq<char>, Seq<char>> {
    match string_at(line, "hw"@) {
        None => Err("record has no \"hw\" field"@),
        Some(hw) => if is_fingerprint(hw) {
            Ok(hw + "-"@ + fingerprint_text(line).subrange(0, 8) + ".jsonl"@)
        } else {
            Err("\"hw\" is not a 16-digit lowercase hex fingerprint: "@ + hw)
        },
    }
}

fn check_fingerprint(hw: &str) -> (r: bool)
    ensures
        r == is_fingerprint(hw@),
{
    let v = chars_of(hw);
    if v.len() != 16 {
        return false;
    }
    let mut i: usize = 0;
    while i < v.len()
        invariant
            i <= v@.len(),
            v@ == hw@,
            forall|j: int| 0 <= j < i ==> is_hex_lower(#[trigger] v@[j]),
        decreases v@.len() - i,
    {
        let c = v[i];
        if !(('0' <= c && c <= '9') || ('a' <= c && c <= 'f')) {
            return false;
        }
        i += 1;
    }
    true
}

/// `<hw>-<hash8>.jsonl`: the same run resubmitted gets the same name, and a
/// second run of the machine cannot overwrite the first.
pub fn dest_filename(line: &str) -> (r: Result<String, String>)
    ensures
        match r {
            Ok(f) => filename_for(line@) == Ok::<Seq<char>, Seq<char>>(f@),
            Err(e) => filename_for(line@) == Err::<Seq<char>, Seq<char>>(e@),
        },
{
    let hw = match json::string(line, "hw") {
        Some(h) => h,
        None => return Err(copy("record has no \"hw\" field")),
    };
    if !check_fingerprint(hw.as_str()) {
        return Err(concat2("\"hw\" is not a 16-digit lowercase hex fingerprint: ", hw.as_str()));
    }
    proof {
        crate::runtime::calibrate::a_fingerprint_is_sixteen_hex_digits(line@);
    }
    let hash = fingerprint(line);
    let mut f = copy(hw.as_str());
    f.append("-");
    f.append(hash.as_str().substring_char(0, 8));
    f.append(".jsonl");
    Ok(f)
}

pub open spec fn url_text(filename: Seq<char>, line: Seq<char>) -> Seq<char> {
    "https://github.com/DEEPESH-845/ZeroCloud/new/main?filename="@ + encoded(
        encode_utf8(DIR@ + "/"@ + filename),
    ) + "&value="@ + encoded(encode_utf8(line))
}

/// The page that offers the record as a new file.
pub fn share_url(filename: &str, line: &str) -> (r: String)
    ensures
        r@ == url_text(filename@, line@),
{
    let path = concat3(DIR, "/", filename);
    let mut o = copy("https://github.com/DEEPESH-845/ZeroCloud/new/main?filename=");
    o.append(encode(path.as_str()).as_str());
    o.append("&value=");
    o.append(encode(line).as_str());
    o
}

// ------------------------------------------------------------------ disclosure

/// Every field a record carries, in disclosure order.
pub open spec fn field_names() -> Seq<Seq<char>> {
    seq![
        "hw"@,
        "os"@,
        "virt"@,
        "backend"@,
        "runtime"@,
        "ram_bw_gbs"@,
        "vram_bw_gbs"@,
        "disk_bw_gbs"@,
        "gflops"@,
        "threads"@,
        "kv"@,
        "model"@,
        "quant"@,
        "ctx"@,
        "prompt_tokens"@,
        "eval_tokens"@,
        "predicted_lo"@,
        "predicted_hi"@,
        "actual_decode_tok_s"@,
        "actual_prefill_tok_s"@,
        "assumed_eta"@,
        "implied_eta"@,
        "implied_prefill_scale"@,
        "active_params"@,
        "error_pct"@,
        "within_range"@,
    ]
}

fn fields() -> (r: Vec<&'static str>)
    ensures
        slices(r@) == field_names(),
{
    let v: Vec<&'static str> = vec![
        "hw",
        "os",
        "virt",
        "backend",
        "runtime",
        "ram_bw_gbs",
        "vram_bw_gbs",
        "disk_bw_gbs",
        "gflops",
        "threads",
        "kv",
        "model",
        "quant",
        "ctx",
        "prompt_tokens",
        "eval_tokens",
        "predicted_lo",
        "predicted_hi",
        "actual_decode_tok_s",
        "actual_prefill_tok_s",
        "assumed_eta",
        "implied_eta",
        "implied_prefill_scale",
        "active_params",
        "error_pct",
        "within_range",
    ];
    assert(slices(v@) =~= field_names());
    v
}

/// A field of the record as it is shown.
pub struct Field {
    pub key: &'static str,
    pub value: String,
}

/// What a [`Field`] holds.
pub struct FieldView {
    pub key: Seq<char>,
    pub value: Seq<char>,
}

impl View for Field {
    type V = FieldView;

    open spec fn view(&self) -> FieldView {
        FieldView { key: self.key@, value: self.value@ }
    }
}

pub open spec fn field_views(v: Seq<Field>) -> Seq<FieldView> {
    v.map_values(|f: Field| f@)
}

/// What the line holds at `key`: a text, a truth value or a number.
pub open spec fn field_at(line: Seq<char>, key: Seq<char>) -> Option<FieldView> {
    match string_at(line, key) {
        Some(v) => Some(FieldView { key, value: v }),
        None => match boolean_at(line, key) {
            Some(b) => Some(FieldView { key, value: bool_text(b) }),
            None => match number_at(line, key) {
                Some(n) => Some(FieldView { key, value: n.shown_text() }),
                None => None,
            },
        },
    }
}

pub open spec fn fields_in(line: Seq<char>, names: Seq<Seq<char>>) -> Seq<FieldView>
    decreases names.len(),
{
    if names.len() == 0 {
        Seq::empty()
    } else {
        let rest = fields_in(line, names.drop_last());
        match field_at(line, names.last()) {
            Some(f) => rest.push(f),
            None => rest,
        }
    }
}

/// The fields of a record, in disclosure order: what is shown is what is sent.
pub fn disclosed(line: &str) -> (r: Vec<Field>)
    ensures
        field_views(r@) == fields_in(line@, field_names()),
{
    let names = fields();
    let ghost all = slices(names@);
    let mut out: Vec<Field> = Vec::new();
    let mut i: usize = 0;
    assert(field_views(out@) =~= fields_in(line@, all.subrange(0, 0)));
    while i < names.len()
        invariant
            i <= names@.len(),
            all == slices(names@),
            field_views(out@) == fields_in(line@, all.subrange(0, i as int)),
        decreases names@.len() - i,
    {
        assert(all.subrange(0, i + 1).drop_last() =~= all.subrange(0, i as int));
        assert(all.subrange(0, i + 1).last() == names@[i as int]@);
        let key = names[i];
        let found = match json::string(line, key) {
            Some(v) => Some(Field { key, value: v }),
            None => match json::boolean(line, key) {
                Some(b) => Some(Field { key, value: copy(bool_str(b)) }),
                None => match json::number(line, key) {
                    Some(n) => Some(Field { key, value: n.shown() }),
                    None => None,
                },
            },
        };
        let ghost prev = out@;
        if let Some(f) = found {
            out.push(f);
            assert(field_views(out@) =~= field_views(prev).push(f@));
        }
        i += 1;
    }
    assert(all.subrange(0, i as int) =~= all);
    out
}

/// The fields, one per line.
pub open spec fn description(f: Seq<FieldView>) -> Seq<char>
    decreases f.len(),
{
    if f.len() == 0 {
        Seq::empty()
    } else {
        description(f.drop_last()) + ("  "@ + left(f.last().key, 22) + " "@ + f.last().value + "\n"@)
    }
}

/// The record, one field per line.
pub fn describe(line: &str) -> (o: String)
    ensures
        o@ == description(fields_in(line@, field_names())),
{
    let f = disclosed(line);
    let ghost all = field_views(f@);
    let mut o = String::new();
    let mut i: usize = 0;
    assert(all.subrange(0, 0) =~= Seq::<FieldView>::empty());
    while i < f.len()
        invariant
            i <= f@.len(),
            all == field_views(f@),
            o@ == description(all.subrange(0, i as int)),
        decreases f@.len() - i,
    {
        assert(all.subrange(0, i + 1).drop_last() =~= all.subrange(0, i as int));
        assert(all.subrange(0, i + 1).last() == f@[i as int]@);
        let mut l = copy("  ");
        l.append(pad_right(f[i].key, 22).as_str());
        l.append(" ");
        l.append(f[i].value.as_str());
        l.append("\n");
        o.append(l.as_str());
        i += 1;
    }
    assert(all.subrange(0, i as int) =~= all);
    o
}

proof fn lemma_fields_complete(line: Seq<char>, names: Seq<Seq<char>>, k: int)
    requires
        0 <= k < names.len(),
        field_at(line, names[k]) is Some,
    ensures
        fields_in(line, names).contains(field_at(line, names[k])->0),
    decreases names.len(),
{
    let f = field_at(line, names[k])->0;
    let rest = fields_in(line, names.drop_last());
    let all = fields_in(line, names);
    if k == names.len() - 1 {
        assert(all[all.len() - 1] == f);
    } else {
        assert(names.drop_last()[k] == names[k]);
        lemma_fields_complete(line, names.drop_last(), k);
        let j = choose|j: int| 0 <= j < rest.len() && rest[j] == f;
        assert(all[j] == f);
    }
}

/// Every field of the list that the record holds is disclosed.
pub proof fn nothing_travels_undisclosed(line: Seq<char>, k: int)
    requires
        0 <= k < field_names().len(),
        field_at(line, field_names()[k]) is Some,
    ensures
        fields_in(line, field_names()).contains(field_at(line, field_names()[k])->0),
{
    lemma_fields_complete(line, field_names(), k);
}

// ------------------------------------------------------------------- the record

/// The last line that is not empty, trimmed.
pub open spec fn last_line(l: Seq<Seq<char>>) -> Option<Seq<char>>
    decreases l.len(),
{
    if l.len() == 0 {
        None
    } else if trim(l.last()).len() > 0 {
        Some(trim(l.last()))
    } else {
        last_line(l.drop_last())
    }
}

/// The most recent record of a file, by the file's name and what it holds.
pub open spec fn record_in(path: Seq<char>, text: Seq<char>) -> Result<Seq<char>, Seq<char>> {
    match last_line(lines(text)) {
        None => Err(path + " has no records yet -- run `zc verify` first"@),
        Some(l) => if string_at(l, "hw"@) is None || number_text(l, "error_pct"@) is None {
            Err("the last line of "@ + path + " is not a calibration record"@)
        } else {
            Ok(l)
        },
    }
}

/// The most recent record in the file, which is the run the user just watched.
pub fn last_record(path: &str, text: &str) -> (r: Result<String, String>)
    ensures
        match r {
            Ok(l) => record_in(path@, text@) == Ok::<Seq<char>, Seq<char>>(l@),
            Err(e) => record_in(path@, text@) == Err::<Seq<char>, Seq<char>>(e@),
        },
{
    let l = lines_of(text);
    let ghost all = texts(l@);
    let mut i: usize = l.len();
    assert(all.subrange(0, i as int) =~= all);
    while i > 0
        invariant
            i <= l@.len(),
            all == texts(l@),
            all == lines(text@),
            last_line(all.subrange(0, i as int)) == last_line(all),
        decreases i,
    {
        assert(all.subrange(0, i as int).drop_last() =~= all.subrange(0, i - 1));
        assert(all.subrange(0, i as int).last() == l@[i - 1]@);
        i -= 1;
        let t = trimmed(l[i].as_str());
        if t.as_str().unicode_len() > 0 {
            if json::string(t.as_str(), "hw").is_none() || json::number(t.as_str(), "error_pct").is_none() {
                return Err(concat3("the last line of ", path, " is not a calibration record"));
            }
            return Ok(t);
        }
    }
    Err(concat2(path, " has no records yet -- run `zc verify` first"))
}

// -------------------------------------------------------------------- the offer

/// What is shown before anything goes anywhere: the whole record, what is not
/// in it, and where it would land.
pub open spec fn shown_text(path: Seq<char>, home: Option<Seq<char>>, line: Seq<char>, filename: Seq<char>) -> Seq<char> {
    "== share ==  ("@ + redacted(path, home)
        + ")\n\n  This is the whole record. Nothing else is sent, and zc opens no\n  connection itself -- your browser does, and you watch it happen.\n\n"@
        + description(fields_in(line, field_names()))
        + "\n  not in it: hostname, username, serial number, MAC, IP, file paths\n\n  lands at      "@ + DIR@ + "/"@ + filename
        + "\n"@
}

/// A link, or the record itself where it is too long for one.
pub open spec fn offer_text(line: Seq<char>, url: Seq<char>) -> Seq<char> {
    if byte_len(url) > MAX_URL {
        "\n  Too long for a URL ("@ + dec(byte_len(url) as nat) + " bytes). Create that file by hand with:\n\n"@ + line + "\n"@
    } else {
        "  url           "@ + url
            + "\n\n  GitHub will fork the repo to your account when you commit, then\n  offer the pull request button. A human reviews and merges.\n\n"@
    }
}

/// The record as it is shown, and the offer behind it. The second value says
/// whether there is a link to open.
pub fn offer(path: &str, home: Option<&str>, line: &str, filename: &str, url: &str) -> (r: (String, bool))
    ensures
        r.0@ == shown_text(path@, opt_str(home), line@, filename@) + offer_text(line@, url@),
        r.1 == (byte_len(url@) <= MAX_URL),
{
    let mut o = copy("== share ==  (");
    o.append(redact(path, home).as_str());
    o.append(
        ")\n\n  This is the whole record. Nothing else is sent, and zc opens no\n  connection itself -- your browser does, and you watch it happen.\n\n",
    );
    o.append(describe(line).as_str());
    o.append("\n  not in it: hostname, username, serial number, MAC, IP, file paths\n\n  lands at      ");
    o.append(DIR);
    o.append("/");
    o.append(filename);
    o.append("\n");
    let n: usize = url.len();
    let mut t = String::new();
    if n > MAX_URL {
        t.append("\n  Too long for a URL (");
        t.append(decimal(n as u128).as_str());
        t.append(" bytes). Create that file by hand with:\n\n");
        t.append(line);
        t.append("\n");
    } else {
        t.append("  url           ");
        t.append(url);
        t.append(
            "\n\n  GitHub will fork the repo to your account when you commit, then\n  offer the pull request button. A human reviews and merges.\n\n",
        );
    }
    assert(t@ =~= offer_text(line@, url@));
    o.append(t.as_str());
    (o, n <= MAX_URL)
}

/// Whether an answer agrees: a y, in either case, and nothing else.
pub fn agrees(answer: &str) -> (r: bool)
    ensures
        r == (trim(answer@) == "y"@ || trim(answer@) == "Y"@),
{
    let t = trimmed(answer);
    same(t.as_str(), "y") || same(t.as_str(), "Y")
}

// ------------------------------------------------------------------ the browser

/// The platforms that open a URL differently.
#[derive(Debug, Clone, Copy, PartialEq, Eq, Structural)]
pub enum Desktop {
    MacOs,
    Unix,
    Windows,
    Other,
}

/// The program and arguments that open `url`. None of them is a shell, which
/// would cut the URL at its ampersand.
pub fn browser_command(url: &str, desktop: Desktop) -> (r: (&'static str, Vec<String>))
    ensures
        match desktop {
            Desktop::MacOs => r.0@ == "open"@ && texts(r.1@) == seq![url@],
            Desktop::Unix => r.0@ == "xdg-open"@ && texts(r.1@) == seq![url@],
            Desktop::Windows => r.0@ == "rundll32"@ && texts(r.1@) == seq!["url.dll,FileProtocolHandler"@, url@],
            Desktop::Other => r.0@ == ""@ && texts(r.1@) == seq![url@],
        },
{
    let mut v: Vec<String> = Vec::new();
    match desktop {
        Desktop::MacOs => {
            v.push(copy(url));
            assert(texts(v@) =~= seq![url@]);
            ("open", v)
        },
        Desktop::Unix => {
            v.push(copy(url));
            assert(texts(v@) =~= seq![url@]);
            ("xdg-open", v)
        },
        Desktop::Windows => {
            v.push(copy("url.dll,FileProtocolHandler"));
            v.push(copy(url));
            assert(texts(v@) =~= seq!["url.dll,FileProtocolHandler"@, url@]);
            ("rundll32", v)
        },
        Desktop::Other => {
            v.push(copy(url));
            assert(texts(v@) =~= seq![url@]);
            ("", v)
        },
    }
}

} // verus!
