//! Talking to installed inference runtimes, and turning what they report into
//! calibration data.
//!
//! A runtime may only write calibration records if it reports its own split of
//! prefill and decode: timing a generation from outside includes HTTP framing,
//! model load and process scheduling, and would corrupt the one dataset that
//! cannot be rebuilt.

pub mod calibrate;
pub mod http;
pub mod judged;
pub mod laws;
pub mod llamacpp;
pub mod lmstudio;
pub mod ollama;
pub mod openai;
pub mod records;

use vstd::prelude::*;
use crate::catalog::{load, overridden, by_size, models_in};
use crate::catalog_data::embedded_texts;
use crate::chars::{
    chars_of, contains, copy, cut, cut_at, dec, decimal, is_alnum, lower, lower_char, lower_one, lowered, mentions, parse_unsigned, same,
    starts_with, string_of, texts, to_uppercase, trim, trimmed, unsigned, uppercase, };
use crate::double::Double;
use crate::json;
use crate::json::{at_most, number_at};
use crate::probe::storage::byte_len;
use crate::spec::{family_of_label, model_views, quant_views, ModelSpec, ModelView, Quant, QuantFamily, QuantView};

verus! {

// ------------------------------------------------------------------ endpoints

/// Where a runtime lives.
pub struct Endpoint {
    pub host: String,
    pub port: u16,
}

/// What an [`Endpoint`] holds.
pub struct EndpointView {
    pub host: Seq<char>,
    pub port: nat,
}

impl View for Endpoint {
    type V = EndpointView;

    open spec fn view(&self) -> EndpointView {
        EndpointView { host: self.host@, port: self.port as nat }
    }
}

impl Endpoint {
    pub fn new(host: &str, port: u16) -> (r: Endpoint)
        ensures
            r@ == (EndpointView { host: host@, port: port as nat }),
    {
        Endpoint { host: copy(host), port }
    }

    /// Loopback on `port`. Every runtime here defaults to listening locally.
    pub fn local(port: u16) -> (r: Endpoint)
        ensures
            r@ == (EndpointView { host: "127.0.0.1"@, port: port as nat }),
    {
        Endpoint::new("127.0.0.1", port)
    }

    /// The endpoint an environment variable names, or loopback on the default
    /// port.
    pub fn from_env(value: Option<&str>, default_port: u16) -> (r: Endpoint)
        ensures
            r@ == endpoint_for(crate::report::opt_str(value), default_port as nat),
    {
        match value {
            Some(v) => match parse_host(v, default_port) {
                Some(e) => e,
                None => Endpoint::local(default_port),
            },
            None => Endpoint::local(default_port),
        }
    }

    /// Whether two endpoints are the same one.
    pub fn is(&self, other: &Endpoint) -> (r: bool)
        ensures
            r == (self@ == other@),
    {
        same(self.host.as_str(), other.host.as_str()) && self.port == other.port
    }

    /// The text of a GET to it.
    pub fn get(&self, path: &str) -> (o: String)
        ensures
            o@ == http::request_text("GET "@ + path@ + " HTTP/1.1\r\n"@, self@.host, self@.port, None),
    {
        http::get(self.host.as_str(), self.port, path)
    }

    /// The text of a POST to it.
    pub fn post(&self, path: &str, body: &str) -> (o: String)
        ensures
            o@ == http::request_text("POST "@ + path@ + " HTTP/1.1\r\n"@, self@.host, self@.port, Some(body@)),
    {
        http::post_json(self.host.as_str(), self.port, path, body)
    }

    /// Whether an answer, if one came, says that the endpoint is alive.
    pub fn responds(&self, answer: &Option<http::Response>) -> (r: bool)
        ensures
            r == (answer matches Some(a) && a.status == 200),
    {
        match answer {
            Some(a) => a.status == 200,
            None => false,
        }
    }

    /// `host:port`.
    pub fn text(&self) -> (r: String)
        ensures
            r@ == self@.host + ":"@ + dec(self@.port),
    {
        let mut o = copy(self.host.as_str());
        o.append(":");
        o.append(decimal(self.port as u128).as_str());
        o
    }
}

pub open spec fn endpoint_for(value: Option<Seq<char>>, default_port: nat) -> EndpointView {
    match value {
        Some(v) => match host_in(v, default_port) {
            Some(e) => e,
            None => EndpointView { host: "127.0.0.1"@, port: default_port },
        },
        None => EndpointView { host: "127.0.0.1"@, port: default_port },
    }
}

/// `s` without `p` at its start, however often it stands there.
pub open spec fn without_leading(s: Seq<char>, p: Seq<char>) -> Seq<char>
    decreases s.len(),
{
    if p.len() > 0 && starts_with(s, p) {
        without_leading(s.subrange(p.len() as int, s.len() as int), p)
    } else {
        s
    }
}

/// `s` without the slashes at its end.
pub open spec fn without_slashes(s: Seq<char>) -> Seq<char>
    decreases s.len(),
{
    if s.len() > 0 && s.last() == '/' {
        without_slashes(s.drop_last())
    } else {
        s
    }
}

/// How often `c` stands in `s`.
pub open spec fn times(s: Seq<char>, c: char) -> nat
    decreases s.len(),
{
    if s.len() == 0 {
        0
    } else {
        times(s.drop_last(), c) + (if s.last() == c { 1nat } else { 0 })
    }
}

/// A host as it is written: `host`, `host:port` or `[address]:port`, with the
/// scheme and trailing slashes allowed. An address with several colons and no
/// brackets has no port.
pub open spec fn host_in(raw: Seq<char>, default_port: nat) -> Option<EndpointView> {
    let s = without_slashes(without_leading(without_leading(trim(raw), "http://"@), "https://"@));
    if s.len() == 0 {
        None
    } else if s[0] == '[' {
        match cut(s.subrange(1, s.len() as int), ']') {
            None => None,
            Some((h, tail)) => if tail.len() > 0 && tail[0] == ':' {
                match unsigned(tail.subrange(1, tail.len() as int), u16::MAX as nat) {
                    Some(p) => Some(EndpointView { host: h, port: p }),
                    None => None,
                }
            } else {
                Some(EndpointView { host: h, port: default_port })
            },
        }
    } else if times(s, ':') > 1 {
        Some(EndpointView { host: s, port: default_port })
    } else {
        match cut(s, ':') {
            Some((h, p)) => match unsigned(p, u16::MAX as nat) {
                Some(n) => Some(EndpointView { host: if h.len() == 0 { "127.0.0.1"@ } else { h }, port: n }),
                None => None,
            },
            None => Some(EndpointView { host: s, port: default_port }),
        }
    }
}

fn strip_leading(s: &str, p: &str) -> (r: String)
    requires
        p@.len() > 0,
    ensures
        r@ == without_leading(s@, p@),
{
    let v = chars_of(s);
    let q = chars_of(p);
    let n: usize = v.len();
    let mut from: usize = 0;
    assert(v@.subrange(0, n as int) =~= v@);
    while crate::chars::at(&v, &q, from)
        invariant
            from <= n == v@.len(),
            q@ == p@,
            q@.len() > 0,
            v@ == s@,
            without_leading(v@.subrange(from as int, n as int), q@) == without_leading(v@, q@),
        decreases n - from,
    {
        let ghost cur = v@.subrange(from as int, n as int);
        assert(cur.subrange(0, q@.len() as int) =~= v@.subrange(from as int, from + q@.len()));
        assert(cur.subrange(q@.len() as int, cur.len() as int) =~= v@.subrange(from + q@.len(), n as int));
        from = from + q.len();
    }
    let ghost cur = v@.subrange(from as int, n as int);
    proof {
        if starts_with(cur, q@) {
            assert(v@.subrange(from as int, from + q@.len()) =~= cur.subrange(0, q@.len() as int));
        }
    }
    string_of(&v, from, n)
}

fn strip_slashes(s: &str) -> (r: String)
    ensures
        r@ == without_slashes(s@),
{
    let v = chars_of(s);
    let mut to: usize = v.len();
    assert(v@.subrange(0, to as int) =~= v@);
    while to > 0 && v[to - 1] == '/'
        invariant
            to <= v@.len(),
            without_slashes(v@.subrange(0, to as int)) == without_slashes(v@),
        decreases to,
    {
        assert(v@.subrange(0, to as int).drop_last() =~= v@.subrange(0, to - 1));
        assert(v@.subrange(0, to as int).last() == v@[to - 1]);
        to -= 1;
    }
    assert(to > 0 ==> v@.subrange(0, to as int).last() == v@[to - 1]);
    string_of(&v, 0, to)
}

fn count_char(v: &Vec<char>, c: char) -> (r: usize)
    ensures
        r as nat == times(v@, c),
{
    let mut n: usize = 0;
    let mut i: usize = 0;
    while i < v.len()
        invariant
            n <= i <= v@.len(),
            n as nat == times(v@.subrange(0, i as int), c),
        decreases v@.len() - i,
    {
        assert(v@.subrange(0, i + 1).drop_last() =~= v@.subrange(0, i as int));
        if v[i] == c {
            n += 1;
        }
        i += 1;
    }
    assert(v@.subrange(0, i as int) =~= v@);
    n
}

fn parse_port(s: &str) -> (r: Option<u16>)
    ensures
        match r {
            Some(p) => unsigned(s@, u16::MAX as nat) == Some(p as nat),
            None => unsigned(s@, u16::MAX as nat) is None,
        },
{
    match parse_unsigned(s, u16::MAX as u64) {
        Some(p) => {
            proof {
                crate::probe::cpu::lemma_unsigned_bound(s@, u16::MAX as nat);
            }
            Some(p as u16)
        },
        None => None,
    }
}

/// Parse a `*_HOST` value.
pub fn parse_host(raw: &str, default_port: u16) -> (r: Option<Endpoint>)
    ensures
        match r {
            Some(e) => host_in(raw@, default_port as nat) == Some(e@),
            None => host_in(raw@, default_port as nat) is None,
        },
{
    proof {
        reveal_strlit("http://");
        reveal_strlit("https://");
    }
    let t = trimmed(raw);
    let a = strip_leading(t.as_str(), "http://");
    let b = strip_leading(a.as_str(), "https://");
    let s = strip_slashes(b.as_str());
    let v = chars_of(s.as_str());
    if v.len() == 0 {
        return None;
    }
    // The bracketed form is the only unambiguous way to write an IPv6 address
    // with a port; the resolver wants the bare address.
    if v[0] == '[' {
        let rest = string_of(&v, 1, v.len());
        return match cut_at(rest.as_str(), ']') {
            None => None,
            Some((h, tail)) => {
                let tv = chars_of(tail.as_str());
                if tv.len() > 0 && tv[0] == ':' {
                    let p = string_of(&tv, 1, tv.len());
                    match parse_port(p.as_str()) {
                        Some(port) => Some(Endpoint { host: h, port }),
                        None => None,
                    }
                } else {
                    Some(Endpoint { host: h, port: default_port })
                }
            },
        };
    }
    if count_char(&v, ':') > 1 {
        return Some(Endpoint { host: s, port: default_port });
    }
    match cut_at(s.as_str(), ':') {
        Some((h, p)) => match parse_port(p.as_str()) {
            Some(port) => if h.as_str().unicode_len() == 0 {
                Some(Endpoint { host: copy("127.0.0.1"), port })
            } else {
                Some(Endpoint { host: h, port })
            },
            None => None,
        },
        None => Some(Endpoint { host: s, port: default_port }),
    }
}

// --------------------------------------------------------------------- models

/// A model a runtime says it has.
///
/// The optional fields are facts the runtime volunteered, `None` when it said
/// nothing and never a default: a guessed parameter count would silently match
/// the wrong catalog entry.
pub struct InstalledModel {
    pub name: String,
    /// On-disk size in bytes. 0 when the runtime does not report it.
    pub size_bytes: u64,
    pub quant: String,
    pub params: Option<u64>,
    pub n_embd: Option<u32>,
    pub n_vocab: Option<u32>,
}

/// What an [`InstalledModel`] holds.
pub struct InstalledView {
    pub name: Seq<char>,
    pub size_bytes: nat,
    pub quant: Seq<char>,
    pub params: Option<u64>,
    pub n_embd: Option<u32>,
    pub n_vocab: Option<u32>,
}

impl View for InstalledModel {
    type V = InstalledView;

    open spec fn view(&self) -> InstalledView {
        InstalledView {
            name: self.name@,
            size_bytes: self.size_bytes as nat,
            quant: self.quant@,
            params: self.params,
            n_embd: self.n_embd,
            n_vocab: self.n_vocab,
        }
    }
}

pub open spec fn installed_views(v: Seq<InstalledModel>) -> Seq<InstalledView> {
    v.map_values(|m: InstalledModel| m@)
}

/// A model of which nothing but name, size and quantisation is known.
pub open spec fn bare_model(name: Seq<char>, size_bytes: nat, quant: Seq<char>) -> InstalledView {
    InstalledView { name, size_bytes, quant, params: None, n_embd: None, n_vocab: None }
}

impl InstalledModel {
    pub fn new(name: &str, size_bytes: u64, quant: &str) -> (r: InstalledModel)
        ensures
            r@ == bare_model(name@, size_bytes as nat, quant@),
    {
        InstalledModel {
            name: copy(name),
            size_bytes,
            quant: copy(quant),
            params: None,
            n_embd: None,
            n_vocab: None,
        }
    }
}

/// What the runtime measured.
pub struct RunStats {
    pub model: String,
    pub prompt_tokens: u32,
    pub eval_tokens: u32,
    pub prefill_tok_s: Double,
    pub decode_tok_s: Double,
    pub load_s: Double,
    /// Context the run actually used, when the runtime reports it. `None`
    /// means it honoured what was asked for.
    pub n_ctx: Option<u32>,
}

/// The number at a key, or nothing.
pub open spec fn number_or_zero(s: Seq<char>, key: Seq<char>) -> Double {
    match number_at(s, key) {
        Some(d) => d,
        None => Double { bits: 0 },
    }
}

pub fn number_or_none(s: &str, key: &str) -> (r: Double)
    ensures
        r == number_or_zero(s@, key@),
{
    match json::number(s, key) {
        Some(d) => d,
        None => Double { bits: 0 },
    }
}

/// `count` per second, over a time in parts of a second. Nothing where no time
/// was measured, so that a response without timings yields zero.
pub open spec fn rate_over(count: Double, time: Double, parts: Double) -> Double {
    if (Double { bits: 0 }).below(time) {
        count.quotient(time.quotient(parts))
    } else {
        Double { bits: 0 }
    }
}

pub fn per_second(count: Double, time: Double, parts: Double) -> (r: Double)
    ensures
        r == rate_over(count, time, parts),
{
    if (Double { bits: 0 }).lt(time) {
        count.over(time.over(parts))
    } else {
        Double { bits: 0 }
    }
}

/// A number as a 32-bit count.
pub open spec fn count32(d: Double) -> nat {
    at_most(d.to_count(), u32::MAX as nat)
}

pub fn as_count32(d: Double) -> (r: u32)
    ensures
        r as nat == count32(d),
{
    let n: u64 = d.as_count();
    if n <= u32::MAX as u64 {
        n as u32
    } else {
        u32::MAX
    }
}

/// What the program asks of a runtime that is listening.
pub trait Runtime {
    spec fn tag(&self) -> Seq<char>;

    spec fn place(&self) -> EndpointView;

    spec fn reports_split(&self) -> bool;

    /// Stable tag, recorded in every calibration record.
    fn name(&self) -> (r: &'static str)
        ensures
            r@ == self.tag(),
    ;

    fn endpoint(&self) -> (r: &Endpoint)
        ensures
            r@ == self.place(),
    ;

    /// Whether this runtime reports its own split of prefill and decode, which
    /// decides whether a record may be written at all.
    fn calibratable(&self) -> (r: bool)
        ensures
            r == self.reports_split(),
    ;
}

// -------------------------------------------------------------- catalog match

/// Letters and digits only, in lower case.
pub open spec fn squashed(s: Seq<char>) -> Seq<char>
    decreases s.len(),
{
    if s.len() == 0 {
        Seq::empty()
    } else {
        let rest = squashed(s.drop_last());
        if is_alnum(s.last()) {
            rest.push(lower_char(s.last()))
        } else {
            rest
        }
    }
}

/// Lower-case alphanumerics only, so that a file name and a catalog id can be
/// compared.
pub fn squash(s: &str) -> (r: String)
    ensures
        r@ == squashed(s@),
{
    let v = chars_of(s);
    let mut o = String::new();
    let mut i: usize = 0;
    while i < v.len()
        invariant
            i <= v@.len(),
            v@ == s@,
            o@ == squashed(v@.subrange(0, i as int)),
        decreases v@.len() - i,
    {
        assert(v@.subrange(0, i + 1).drop_last() =~= v@.subrange(0, i as int));
        let c = v[i];
        if ('0' <= c && c <= '9') || ('a' <= c && c <= 'z') || ('A' <= c && c <= 'Z') {
            o.push(lower_one(c));
        }
        i += 1;
    }
    assert(v@.subrange(0, i as int) =~= v@);
    o
}

/// The names go together: one holds the other.
pub open spec fn names_match(want: Seq<char>, id: Seq<char>) -> bool {
    contains(want, squashed(id)) || contains(squashed(id), want)
}

/// The position of the entry with the longest id that goes with the name, the
/// last of several: the more specific entry is the right one.
pub open spec fn best_entry(specs: Seq<ModelView>, want: Seq<char>) -> Option<int>
    decreases specs.len(),
{
    if specs.len() == 0 {
        None
    } else {
        let rest = best_entry(specs.drop_last(), want);
        let here = specs.len() - 1;
        if !names_match(want, specs[here].id) {
            rest
        } else {
            match rest {
                Some(k) => if byte_len(specs[here].id) >= byte_len(specs[k].id) {
                    Some(here)
                } else {
                    rest
                },
                None => Some(here),
            }
        }
    }
}

/// The bits of 0.02: two percent absorb the difference between an advertised
/// and a counted parameter count.
pub const TOLERANCE_BITS: u64 = 0x3F94_7AE1_47AE_147B;

/// How far apart two counts are, as a share of the second.
pub open spec fn off_by(p: nat, params: nat) -> Double {
    Double::count(p).difference(Double::count(params)).absolute().quotient(Double::count(params))
}

/// What the runtime volunteered does not contradict the entry.
pub open spec fn agrees(m: InstalledView, s: ModelView) -> bool {
    &&& m.params matches Some(p) ==> !(Double { bits: TOLERANCE_BITS }).below(off_by(p as nat, s.params))
    &&& m.n_embd matches Some(n) ==> n == s.n_embd
    &&& m.n_vocab matches Some(n) ==> n == s.n_vocab
}

/// The quantisations whose name is the label, whatever the case.
pub open spec fn quants_named(q: Seq<QuantView>, label: Seq<char>) -> Seq<QuantView>
    decreases q.len(),
{
    if q.len() == 0 {
        q
    } else {
        let rest = quants_named(q.drop_last(), label);
        if uppercase(q.last().name) == label {
            rest.push(q.last())
        } else {
            rest
        }
    }
}

/// The quantisation that is installed: the catalog's by that name, with the
/// runtime's own byte count where it has one, or one made of what the runtime
/// says. Without a size or a label there is nothing to predict from.
pub open spec fn installed_quants(named: Seq<QuantView>, m: InstalledView) -> Option<Seq<QuantView>> {
    if named.len() == 0 {
        if m.size_bytes == 0 || lower(m.quant) == "unknown"@ {
            None
        } else {
            Some(
                seq![
                    QuantView { name: m.quant, bytes: m.size_bytes, family: family_of_label(uppercase(m.quant)) },
                ],
            )
        }
    } else if m.size_bytes > 0 {
        Some(named.update(0, QuantView { bytes: m.size_bytes, ..named[0] }))
    } else {
        Some(named)
    }
}

/// The catalog entry a runtime's model corresponds to.
pub open spec fn entry_for(specs: Seq<ModelView>, m: InstalledView) -> Option<ModelView> {
    match best_entry(specs, squashed(m.name)) {
        None => None,
        Some(k) => if !agrees(m, specs[k]) {
            None
        } else {
            match installed_quants(quants_named(specs[k].quants, uppercase(m.quant)), m) {
                Some(q) => Some(ModelView { quants: q, ..specs[k] }),
                None => None,
            }
        },
    }
}

fn find_entry(specs: &Vec<ModelSpec>, want: &str) -> (r: Option<usize>)
    ensures
        match r {
            Some(k) => best_entry(model_views(specs@), want@) == Some(k as int) && k < specs@.len(),
            None => best_entry(model_views(specs@), want@) is None,
        },
{
    let ghost all = model_views(specs@);
    let mut best: Option<usize> = None;
    let mut i: usize = 0;
    while i < specs.len()
        invariant
            i <= specs@.len(),
            all == model_views(specs@),
            match best {
                Some(k) => best_entry(all.subrange(0, i as int), want@) == Some(k as int) && k < i,
                None => best_entry(all.subrange(0, i as int), want@) is None,
            },
        decreases specs@.len() - i,
    {
        let ghost cur = all.subrange(0, i + 1);
        assert(cur.drop_last() =~= all.subrange(0, i as int));
        assert(cur[i as int] == specs@[i as int]@);
        let id = squash(specs[i].id.as_str());
        if mentions(want, id.as_str()) || mentions(id.as_str(), want) {
            best = match best {
                Some(k) => {
                    assert(cur[k as int] == specs@[k as int]@);
                    if specs[i].id.as_str().len() >= specs[k].id.as_str().len() {
                        Some(i)
                    } else {
                        Some(k)
                    }
                },
                None => Some(i),
            };
        }
        i += 1;
    }
    assert(all.subrange(0, i as int) =~= all);
    best
}

fn is_agreed(m: &InstalledModel, s: &ModelSpec) -> (r: bool)
    ensures
        r == agrees(m@, s@),
{
    if let Some(p) = m.params {
        let params = Double::of_count(s.params);
        let off = Double::of_count(p).less(params).abs().over(params);
        if (Double { bits: TOLERANCE_BITS }).lt(off) {
            return false;
        }
    }
    if let Some(n) = m.n_embd {
        if n != s.n_embd {
            return false;
        }
    }
    if let Some(n) = m.n_vocab {
        if n != s.n_vocab {
            return false;
        }
    }
    true
}

fn copy_quant(q: &Quant) -> (r: Quant)
    ensures
        r@ == q@,
{
    Quant { name: copy(q.name.as_str()), bytes: q.bytes, family: q.family }
}

/// The quantisations among `quants` whose upper-case name is the label.
pub open spec fn picked_quants(q: Seq<QuantView>, upper: Seq<Seq<char>>, label: Seq<char>) -> Seq<QuantView>
    decreases q.len(),
{
    if q.len() == 0 || upper.len() == 0 {
        Seq::empty()
    } else {
        let rest = picked_quants(q.drop_last(), upper.drop_last(), label);
        if upper.last() == label {
            rest.push(q.last())
        } else {
            rest
        }
    }
}

/// The quantisations whose name, given in upper case, is the label.
pub fn pick_quants(quants: &Vec<Quant>, upper: &Vec<String>, label: &str) -> (r: Vec<Quant>)
    requires
        quants@.len() == upper@.len(),
    ensures
        quant_views(r@) == picked_quants(quant_views(quants@), texts(upper@), label@),
{
    let ghost q = quant_views(quants@);
    let ghost u = texts(upper@);
    let mut out: Vec<Quant> = Vec::new();
    let mut i: usize = 0;
    assert(quant_views(out@) =~= picked_quants(q.subrange(0, 0), u.subrange(0, 0), label@));
    while i < quants.len()
        invariant
            i <= quants@.len() == upper@.len(),
            q == quant_views(quants@),
            u == texts(upper@),
            quant_views(out@) == picked_quants(q.subrange(0, i as int), u.subrange(0, i as int), label@),
        decreases quants@.len() - i,
    {
        assert(q.subrange(0, i + 1).drop_last() =~= q.subrange(0, i as int));
        assert(u.subrange(0, i + 1).drop_last() =~= u.subrange(0, i as int));
        assert(q.subrange(0, i + 1).last() == quants@[i as int]@);
        assert(u.subrange(0, i + 1).last() == upper@[i as int]@);
        let ghost prev = out@;
        if same(upper[i].as_str(), label) {
            let c = copy_quant(&quants[i]);
            out.push(c);
            assert(quant_views(out@) =~= quant_views(prev).push(quants@[i as int]@));
        }
        i += 1;
    }
    assert(q.subrange(0, i as int) =~= q);
    assert(u.subrange(0, i as int) =~= u);
    out
}

proof fn lemma_picked_is_named(q: Seq<QuantView>, upper: Seq<Seq<char>>, label: Seq<char>)
    requires
        q.len() == upper.len(),
        forall|i: int| 0 <= i < q.len() ==> upper[i] == uppercase(#[trigger] q[i].name),
    ensures
        picked_quants(q, upper, label) == quants_named(q, label),
    decreases q.len(),
{
    if q.len() > 0 {
        assert(upper[q.len() - 1] == uppercase(q[q.len() - 1].name));
        assert forall|i: int| 0 <= i < q.drop_last().len() implies upper.drop_last()[i] == uppercase(
            #[trigger] q.drop_last()[i].name,
        ) by {
            assert(upper[i] == uppercase(q[i].name));
        }
        lemma_picked_is_named(q.drop_last(), upper.drop_last(), label);
    }
}

/// What is installed, of the catalog's quantisations by the runtime's label
/// and of what the runtime says of the file.
pub fn settle_quants(named: Vec<Quant>, m: &InstalledModel, family: QuantFamily) -> (r: Option<Vec<Quant>>)
    requires
        family == family_of_label(uppercase(m@.quant)),
    ensures
        match r {
            Some(q) => installed_quants(quant_views(named@), m@) == Some(quant_views(q@)),
            None => installed_quants(quant_views(named@), m@) is None,
        },
{
    let mut q = named;
    assert(quant_views(q@).len() == q@.len());
    if q.len() == 0 {
        let label = lowered(m.quant.as_str());
        if m.size_bytes == 0 || same(label.as_str(), "unknown") {
            return None;
        }
        q.push(Quant { name: copy(m.quant.as_str()), bytes: m.size_bytes, family });
        assert(quant_views(q@) =~= installed_quants(quant_views(named@), m@)->0);
        return Some(q);
    }
    if m.size_bytes > 0 {
        let ghost before = q@;
        let mut first = q.remove(0);
        first.bytes = m.size_bytes;
        q.insert(0, first);
        assert(quant_views(q@) =~= quant_views(before).update(
            0,
            QuantView { bytes: m.size_bytes as nat, ..quant_views(before)[0] },
        ));
    }
    Some(q)
}

/// Find the catalog entry a runtime-reported model corresponds to, among the
/// given entries.
///
/// The match is deliberately hard to pass: every fact the runtime did report
/// is checked against the entry, and any disagreement rejects it. A missing
/// model is recoverable; a confidently wrong one is not.
pub fn match_entry(model: &InstalledModel, specs: Vec<ModelSpec>) -> (r: Option<ModelSpec>)
    ensures
        match r {
            Some(s) => entry_for(model_views(specs@), model@) == Some(s@),
            None => entry_for(model_views(specs@), model@) is None,
        },
{
    let ghost all = model_views(specs@);
    let mut v = specs;
    let want = squash(model.name.as_str());
    let k: usize = match find_entry(&v, want.as_str()) {
        Some(k) => k,
        None => return None,
    };
    let mut spec = v.swap_remove(k);
    assert(spec@ == all[k as int]);
    if !is_agreed(model, &spec) {
        return None;
    }
    let label = to_uppercase(model.quant.as_str());
    let mut upper: Vec<String> = Vec::new();
    let mut i: usize = 0;
    while i < spec.quants.len()
        invariant
            i <= spec.quants@.len(),
            upper@.len() == i,
            forall|j: int| 0 <= j < i ==> (#[trigger] upper@[j])@ == uppercase(spec.quants@[j].name@),
        decreases spec.quants@.len() - i,
    {
        upper.push(to_uppercase(spec.quants[i].name.as_str()));
        i += 1;
    }
    let named = pick_quants(&spec.quants, &upper, label.as_str());
    proof {
        let q = quant_views(spec.quants@);
        assert forall|j: int| 0 <= j < q.len() implies texts(upper@)[j] == uppercase(#[trigger] q[j].name) by {
            assert(upper@[j]@ == uppercase(spec.quants@[j].name@));
        }
        lemma_picked_is_named(q, texts(upper@), label@);
    }
    let family = QuantFamily::from_gguf_label(model.quant.as_str());
    match settle_quants(named, model, family) {
        Some(q) => {
            spec.quants = q;
            Some(spec)
        },
        None => None,
    }
}

/// Find the catalog entry a runtime-reported model corresponds to. The catalog
/// is the built-in one with the given documents put in.
pub fn catalog_match(model: &InstalledModel, docs: &Vec<String>) -> (r: Option<ModelSpec>)
    ensures
        ({
            let specs = by_size(overridden(models_in(embedded_texts()), texts(docs@)));
            match r {
                Some(s) => entry_for(specs, model@) == Some(s@),
                None => entry_for(specs, model@) is None,
            }
        }),
{
    let loaded = load(docs);
    match_entry(model, loaded.models)
}

/// A match never contradicts what the runtime said of the model.
pub proof fn a_match_agrees_with_the_runtime(specs: Seq<ModelView>, m: InstalledView)
    ensures
        entry_for(specs, m) matches Some(s) ==> agrees(m, s) && s.quants.len() > 0,
{
}

// --------------------------------------------------------------------- prompt

pub open spec fn clause_text(k: nat) -> Seq<char> {
    if k == 0 {
        "the measurement records throughput across successive layers"@
    } else if k == 1 {
        "each block of weights is read once per generated token"@
    } else if k == 2 {
        "bandwidth rather than arithmetic determines the observed rate"@
    } else if k == 3 {
        "cache residency shifts the balance between memory and storage"@
    } else if k == 4 {
        "quantisation changes how many bytes cross the bus per parameter"@
    } else if k == 5 {
        "attention state grows with every token retained in context"@
    } else if k == 6 {
        "routing selects a small subset of experts for each position"@
    } else {
        "prefill processes the whole prompt in a single weight pass"@
    }
}

/// The next number of the sequence that picks the clauses.
#[verifier::opaque]
pub open spec fn next_pick(i: nat) -> nat {
    (i * 6_364_136_223_846_793_005 + 1) % 0x1_0000_0000_0000_0000
}

/// The text with the clause that `n` picks.
#[verifier::opaque]
pub open spec fn with_clause(text: Seq<char>, n: nat) -> Seq<char> {
    text + clause_text((n / 0x2_0000_0000) % 8) + ". "@
}

pub proof fn lemma_with_clause(text: Seq<char>, n: nat)
    ensures
        with_clause(text, n).len() > text.len(),
        text.is_prefix_of(with_clause(text, n)),
{
    reveal(with_clause);
    reveal_strlit(". ");
    assert(with_clause(text, n).subrange(0, text.len() as int) =~= text);
}

/// The text so far, with clauses added until it is long enough.
pub open spec fn prompt_body(text: Seq<char>, i: nat) -> Seq<char>
    decreases (if text.len() >= 5_400 { 0 } else { 5_400 - text.len() }),
{
    if text.len() >= 5_400 {
        text
    } else {
        proof {
            lemma_with_clause(text, next_pick(i));
        }
        prompt_body(with_clause(text, next_pick(i)), next_pick(i))
    }
}

pub open spec fn prompt_start(nonce: nat) -> Seq<char> {
    "Session "@ + dec(nonce) + ". Reference text follows. "@
}

pub open spec fn prompt_text(nonce: nat) -> Seq<char> {
    prompt_body(prompt_start(nonce), nonce) + "\nSummarise the text above in one short paragraph."@
}

fn clause(k: u64) -> (r: &'static str)
    requires
        k < 8,
    ensures
        r@ == clause_text(k as nat),
{
    if k == 0 {
        "the measurement records throughput across successive layers"
    } else if k == 1 {
        "each block of weights is read once per generated token"
    } else if k == 2 {
        "bandwidth rather than arithmetic determines the observed rate"
    } else if k == 3 {
        "cache residency shifts the balance between memory and storage"
    } else if k == 4 {
        "quantisation changes how many bytes cross the bus per parameter"
    } else if k == 5 {
        "attention state grows with every token retained in context"
    } else if k == 6 {
        "routing selects a small subset of experts for each position"
    } else {
        "prefill processes the whole prompt in a single weight pass"
    }
}

fn pick_after(i: u64) -> (r: u64)
    ensures
        r as nat == next_pick(i as nat),
{
    let r: u64 = i.wrapping_mul(6_364_136_223_846_793_005).wrapping_add(1);
    proof {
        reveal(next_pick);
        let m = i as int * 6_364_136_223_846_793_005;
        vstd::arithmetic::div_mod::lemma_add_mod_noop(m, 1, 0x1_0000_0000_0000_0000);
    }
    r
}

fn add_clause(o: &mut String, n: u64)
    ensures
        final(o)@ == with_clause(old(o)@, n as nat),
{
    let k: u64 = (n / 0x2_0000_0000) % 8;
    o.append(clause(k));
    o.append(". ");
    proof {
        reveal(with_clause);
    }
}

/// Build a long, varied prompt for measuring prefill: long enough that prefill
/// is signal, the nonce first so that a repeated run shares no cached prefix,
/// and varied text so that tokenisation stays representative.
pub fn measurement_prompt(nonce: u64) -> (o: String)
    ensures
        o@ == prompt_text(nonce as nat),
{
    let mut o = copy("Session ");
    o.append(decimal(nonce as u128).as_str());
    o.append(". Reference text follows. ");
    let mut i: u64 = nonce;
    while o.as_str().unicode_len() < 5_400
        invariant
            prompt_body(o@, i as nat) == prompt_body(prompt_start(nonce as nat), nonce as nat),
        decreases (if o@.len() >= 5_400 { 0 } else { 5_400 - o@.len() }),
    {
        i = pick_after(i);
        proof {
            lemma_with_clause(o@, i as nat);
        }
        add_clause(&mut o, i);
    }
    o.append("\nSummarise the text above in one short paragraph.");
    o
}

proof fn lemma_prompt_body_starts(text: Seq<char>, i: nat)
    ensures
        text.is_prefix_of(prompt_body(text, i)),
    decreases (if text.len() >= 5_400 { 0 } else { 5_400 - text.len() }),
{
    if text.len() < 5_400 {
        let longer = with_clause(text, next_pick(i));
        lemma_with_clause(text, next_pick(i));
        lemma_prompt_body_starts(longer, next_pick(i));
        let all = prompt_body(text, i);
        assert(all.subrange(0, text.len() as int) =~= longer.subrange(0, text.len() as int)) by {
            assert(all.subrange(0, longer.len() as int) == longer);
            assert forall|k: int| 0 <= k < text.len() implies all[k] == longer[k] by {
                assert(all.subrange(0, longer.len() as int)[k] == all[k]);
            }
        }
    } else {
        assert(text.subrange(0, text.len() as int) =~= text);
    }
}

/// The nonce comes first: every prompt starts with it.
pub proof fn a_prompt_starts_with_its_nonce(nonce: nat)
    ensures
        prompt_start(nonce).is_prefix_of(prompt_text(nonce)),
{
    lemma_prompt_body_starts(prompt_start(nonce), nonce);
    let body = prompt_body(prompt_start(nonce), nonce);
    assert(prompt_text(nonce).subrange(0, prompt_start(nonce).len() as int) =~= body.subrange(
        0,
        prompt_start(nonce).len() as int,
    ));
}

proof fn lemma_prompt_body_length(text: Seq<char>, i: nat)
    ensures
        prompt_body(text, i).len() >= 5_400,
    decreases (if text.len() >= 5_400 { 0 } else { 5_400 - text.len() }),
{
    if text.len() < 5_400 {
        lemma_with_clause(text, next_pick(i));
        lemma_prompt_body_length(with_clause(text, next_pick(i)), next_pick(i));
    }
}

/// A prompt is long enough to measure prefill with.
pub proof fn a_prompt_is_long(nonce: nat)
    ensures
        prompt_text(nonce).len() > 5_000,
{
    lemma_prompt_body_length(prompt_start(nonce), nonce);
}

/// Prompts of two nonces part before either nonce is over, so that no runtime
/// can answer one from what it kept of the other.
pub proof fn prompts_differ_early(a: nat, b: nat)
    requires
        a != b,
    ensures
        exists|i: int| 0 <= i <= 8 + dec(a).len() && i < prompt_text(a).len() && i < prompt_text(b).len() && #[trigger] prompt_text(
            a,
        )[i] != prompt_text(b)[i],
{
    a_prompt_starts_with_its_nonce(a);
    a_prompt_starts_with_its_nonce(b);
    reveal_strlit("Session ");
    reveal_strlit(". Reference text follows. ");
    crate::double::lemma_dec_is_plain(a);
    crate::double::lemma_dec_is_plain(b);
    let (p, q) = (prompt_start(a), prompt_start(b));
    let (x, y) = (dec(a), dec(b));
    assert forall|i: int| 0 <= i < p.len() implies prompt_text(a)[i] == p[i] by {
        assert(prompt_text(a).subrange(0, p.len() as int)[i] == prompt_text(a)[i]);
    }
    assert forall|i: int| 0 <= i < q.len() implies prompt_text(b)[i] == q[i] by {
        assert(prompt_text(b).subrange(0, q.len() as int)[i] == prompt_text(b)[i]);
    }
    let n = if x.len() <= y.len() { x.len() as int } else { y.len() as int };
    assert("Session "@.len() == 8);
    if exists|k: int| 0 <= k < n && x[k] != y[k] {
        let k = choose|k: int| 0 <= k < n && x[k] != y[k];
        assert(p[8 + k] == x[k] && q[8 + k] == y[k]);
        assert(prompt_text(a)[8 + k] != prompt_text(b)[8 + k]);
    } else if x.len() < y.len() {
        let k = x.len() as int;
        assert(p[8 + k] == '.');
        assert(q[8 + k] == y[k]);
        assert('0' <= y[k] <= '9');
        assert(prompt_text(a)[8 + k] != prompt_text(b)[8 + k]);
    } else if y.len() < x.len() {
        let k = y.len() as int;
        assert(q[8 + k] == '.');
        assert(p[8 + k] == x[k]);
        assert('0' <= x[k] <= '9');
        assert(prompt_text(a)[8 + k] != prompt_text(b)[8 + k]);
    } else {
        assert(x =~= y);
    }
}

} // verus!
