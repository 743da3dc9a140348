//! The OpenAI-compatible surface, shared by everything that speaks it.
//!
//! vLLM, MLX, RamaLama and Docker Model Runner all serve the same listing. The
//! chat response carries token counts and no timing at all, so they are
//! detected, named, and refused for calibration.

use vstd::prelude::*;
use crate::chars::{
    begins, chars_of, concat2, contains, copy, find, find_chars, is_digit, lowercase, mentions, same, split, split_on, starts_with, string_of, texts,
    to_lowercase, to_uppercase, uppercase,
};
use crate::json;
use crate::json::{objects_at, slices, string_at, whole_at};
use crate::runtime::{installed_views, Endpoint, EndpointView, InstalledModel, InstalledView, Runtime};

verus! {

pub open spec fn count64(s: Seq<char>, key: Seq<char>) -> Option<u64> {
    match whole_at(s, key, u64::MAX as nat) {
        Some(n) => Some(n as u64),
        None => None,
    }
}

pub open spec fn count32(s: Seq<char>, key: Seq<char>) -> Option<u32> {
    match whole_at(s, key, u32::MAX as nat) {
        Some(n) => Some(n as u32),
        None => None,
    }
}

pub open spec fn or_zero(n: Option<u64>) -> nat {
    match n {
        Some(x) => x as nat,
        None => 0,
    }
}

// ----------------------------------------------------------- quantisation label

pub open spec fn is_separator(c: char) -> bool {
    c == '-' || c == '_' || c == '.' || c == '/' || c == '\\' || c == ' '
}

/// Every separator as a dash.
pub open spec fn dashed(s: Seq<char>) -> Seq<char> {
    s.map_values(|c: char| if is_separator(c) { '-' } else { c })
}

/// The tokens of a name.
pub open spec fn name_tokens(name: Seq<char>) -> Seq<Seq<char>> {
    split(dashed(name), '-')
}

/// An upper-case token that starts a quantisation label.
pub open spec fn starts_label(u: Seq<char>) -> bool {
    (u.len() >= 2 && u[0] == 'Q' && is_digit(u[1])) || starts_with(u, "IQ"@) || starts_with(u, "MXFP"@) || u == "F16"@ || u
        == "BF16"@
}

/// The last of the upper-case tokens that starts a label.
pub open spec fn label_head(upper: Seq<Seq<char>>) -> Option<Seq<char>>
    decreases upper.len(),
{
    if upper.len() == 0 {
        None
    } else if starts_label(upper.last()) {
        Some(upper.last())
    } else {
        label_head(upper.drop_last())
    }
}

/// Where a label ends: at the first separator that is no underscore.
pub open spec fn label_end(s: Seq<char>, i: int) -> int
    decreases s.len() - i,
{
    if i < 0 || i >= s.len() {
        s.len() as int
    } else if s[i] == '-' || s[i] == '.' || s[i] == '/' || s[i] == '\\' || s[i] == ' ' {
        i
    } else {
        label_end(s, i + 1)
    }
}

/// The whole label around its head, in an upper-case name.
pub open spec fn whole_label(upper_name: Seq<char>, head: Seq<char>) -> Seq<char> {
    match find(upper_name, head, 0) {
        Some(i) => upper_name.subrange(i, label_end(upper_name, i)),
        None => head,
    }
}

/// The label in an upper-case name with upper-case tokens.
pub open spec fn label_of(upper_name: Seq<char>, upper: Seq<Seq<char>>) -> Seq<char> {
    match label_head(upper) {
        Some(h) => whole_label(upper_name, h),
        None => "unknown"@,
    }
}

/// The quantisation label in a model's name.
pub open spec fn quant_label(name: Seq<char>) -> Seq<char> {
    label_of(uppercase(name), name_tokens(name).map_values(|t: Seq<char>| uppercase(t)))
}

fn with_dashes(name: &str) -> (r: String)
    ensures
        r@ == dashed(name@),
{
    let v = chars_of(name);
    let mut o = String::new();
    let mut i: usize = 0;
    while i < v.len()
        invariant
            i <= v@.len(),
            o@ =~= dashed(v@.subrange(0, i as int)),
        decreases v@.len() - i,
    {
        let c = v[i];
        o.push(
            if c == '-' || c == '_' || c == '.' || c == '/' || c == '\\' || c == ' ' {
                '-'
            } else {
                c
            },
        );
        i += 1;
    }
    assert(v@.subrange(0, i as int) =~= v@);
    o
}

fn is_label_start(u: &str) -> (r: bool)
    ensures
        r == starts_label(u@),
{
    let v = chars_of(u);
    (v.len() >= 2 && v[0] == 'Q' && '0' <= v[1] && v[1] <= '9') || begins(u, "IQ") || begins(u, "MXFP") || same(u, "F16")
        || same(u, "BF16")
}

/// Recover the whole `Q4_K_M`-style label around a leading token.
fn full_label(upper_name: &str, head: &str) -> (r: String)
    ensures
        r@ == whole_label(upper_name@, head@),
{
    let v = chars_of(upper_name);
    let h = chars_of(head);
    proof {
        crate::chars::lemma_find(v@, h@, 0);
    }
    match find_chars(&v, &h, 0) {
        None => copy(head),
        Some(i) => {
            let mut j: usize = i;
            while j < v.len() && v[j] != '-' && v[j] != '.' && v[j] != '/' && v[j] != '\\' && v[j] != ' '
                invariant
                    i <= j <= v@.len(),
                    label_end(v@, j as int) == label_end(v@, i as int),
                decreases v@.len() - j,
            {
                j += 1;
            }
            string_of(&v, i, j)
        },
    }
}

/// The label in a name, given in upper case with its tokens in upper case.
pub fn label_in_upper(upper_name: &str, upper: &Vec<String>) -> (r: String)
    ensures
        r@ == label_of(upper_name@, texts(upper@)),
{
    let ghost all = texts(upper@);
    let mut i: usize = upper.len();
    assert(all.subrange(0, i as int) =~= all);
    while i > 0
        invariant
            i <= upper@.len(),
            all == texts(upper@),
            label_head(all.subrange(0, i as int)) == label_head(all),
        decreases i,
    {
        assert(all.subrange(0, i as int).drop_last() =~= all.subrange(0, i - 1));
        assert(all.subrange(0, i as int).last() == upper@[i - 1]@);
        i -= 1;
        if is_label_start(upper[i].as_str()) {
            return full_label(upper_name, upper[i].as_str());
        }
    }
    copy("unknown")
}

/// Pull a GGUF quantisation label out of a model name or path.
///
/// `"unknown"` rather than a guess: the family sets dequantisation cost, so a
/// wrong guess is a wrong prediction.
pub fn quant_from_name(name: &str) -> (r: String)
    ensures
        r@ == quant_label(name@),
{
    let flat = with_dashes(name);
    let tokens = split_on(flat.as_str(), '-');
    let ghost all = texts(tokens@);
    let mut upper: Vec<String> = Vec::new();
    let mut i: usize = 0;
    while i < tokens.len()
        invariant
            i <= tokens@.len(),
            all == texts(tokens@),
            texts(upper@) =~= all.subrange(0, i as int).map_values(|t: Seq<char>| uppercase(t)),
        decreases tokens@.len() - i,
    {
        let ghost prev = upper@;
        upper.push(to_uppercase(tokens[i].as_str()));
        assert(texts(upper@) =~= texts(prev).push(uppercase(all[i as int])));
        i += 1;
    }
    assert(all.subrange(0, i as int) =~= all);
    let u = to_uppercase(name);
    label_in_upper(u.as_str(), &upper)
}

// -------------------------------------------------------------------- listing

/// A model of the listing. llama.cpp adds what it knows; everyone else sends
/// the id alone.
pub open spec fn listed_model(obj: Seq<char>) -> Option<InstalledView> {
    match string_at(obj, "id"@) {
        Some(id) => Some(
            InstalledView {
                name: id,
                size_bytes: or_zero(count64(obj, "size"@)),
                quant: quant_label(id),
                params: count64(obj, "n_params"@),
                n_embd: count32(obj, "n_embd"@),
                n_vocab: count32(obj, "n_vocab"@),
            },
        ),
        None => None,
    }
}

pub open spec fn listed_models(objs: Seq<Seq<char>>) -> Seq<InstalledView>
    decreases objs.len(),
{
    if objs.len() == 0 {
        Seq::empty()
    } else {
        let rest = listed_models(objs.drop_last());
        match listed_model(objs.last()) {
            Some(m) => rest.push(m),
            None => rest,
        }
    }
}

fn listed(obj: &str) -> (r: Option<InstalledModel>)
    ensures
        match r {
            Some(m) => listed_model(obj@) == Some(m@),
            None => listed_model(obj@) is None,
        },
{
    match json::string(obj, "id") {
        Some(id) => {
            let quant = quant_from_name(id.as_str());
            let size_bytes: u64 = match json::whole(obj, "size") {
                Some(n) => n,
                None => 0,
            };
            let params = json::whole(obj, "n_params");
            let n_embd = json::whole32(obj, "n_embd");
            let n_vocab = json::whole32(obj, "n_vocab");
            Some(InstalledModel { name: id, size_bytes, quant, params, n_embd, n_vocab })
        },
        None => None,
    }
}

/// Parse an OpenAI `/v1/models` list.
pub fn parse_models(body: &str) -> (r: Vec<InstalledModel>)
    ensures
        installed_views(r@) == listed_models(objects_at(body@, "data"@)),
{
    let objs = json::array_objects(body, "data");
    let ghost all = slices(objs@);
    let mut out: Vec<InstalledModel> = Vec::new();
    let mut i: usize = 0;
    assert(installed_views(out@) =~= listed_models(all.subrange(0, 0)));
    while i < objs.len()
        invariant
            i <= objs@.len(),
            all == slices(objs@),
            installed_views(out@) == listed_models(all.subrange(0, i as int)),
        decreases objs@.len() - i,
    {
        assert(all.subrange(0, i + 1).drop_last() =~= all.subrange(0, i as int));
        assert(all.subrange(0, i + 1).last() == objs@[i as int]@);
        let ghost prev = out@;
        if let Some(m) = listed(objs[i]) {
            out.push(m);
            assert(installed_views(out@) =~= installed_views(prev).push(m@));
        }
        i += 1;
    }
    assert(all.subrange(0, i as int) =~= all);
    out
}

// ----------------------------------------------------------------- who it is

/// The runtime a lower-case owner stands for.
pub open spec fn owner_in(o: Seq<char>) -> Option<Seq<char>> {
    if contains(o, "vllm"@) {
        Some("vllm"@)
    } else if contains(o, "mlx"@) {
        Some("mlx"@)
    } else if contains(o, "llamacpp"@) || contains(o, "llama.cpp"@) {
        Some("llamacpp"@)
    } else if contains(o, "ollama"@) {
        Some("ollama"@)
    } else {
        None
    }
}

/// The runtime the first model of the listing says it is owned by.
pub open spec fn owner_of(body: Seq<char>) -> Option<Seq<char>> {
    let objs = objects_at(body, "data"@);
    if objs.len() == 0 {
        None
    } else {
        match string_at(objs[0], "owned_by"@) {
            Some(o) => owner_in(lowercase(o)),
            None => None,
        }
    }
}

/// The tag of an owner in lower case.
pub fn owner_of_lower(o: &str) -> (r: Option<&'static str>)
    ensures
        match r {
            Some(t) => owner_in(o@) == Some(t@),
            None => owner_in(o@) is None,
        },
{
    if mentions(o, "vllm") {
        Some("vllm")
    } else if mentions(o, "mlx") {
        Some("mlx")
    } else if mentions(o, "llamacpp") || mentions(o, "llama.cpp") {
        Some("llamacpp")
    } else if mentions(o, "ollama") {
        Some("ollama")
    } else {
        None
    }
}

/// Map the `owned_by` field to a stable runtime tag.
pub fn owner_tag(body: &str) -> (r: Option<&'static str>)
    ensures
        match r {
            Some(t) => owner_of(body@) == Some(t@),
            None => owner_of(body@) is None,
        },
{
    let objs = json::array_objects(body, "data");
    assert(slices(objs@).len() == objs@.len());
    if objs.len() == 0 {
        return None;
    }
    assert(slices(objs@)[0] == objs@[0]@);
    match json::string(objs[0], "owned_by") {
        Some(o) => {
            let low = to_lowercase(o.as_str());
            owner_of_lower(low.as_str())
        },
        None => None,
    }
}

/// A runtime that can be seen and listed but must never be calibrated from.
pub struct OpenAiCompat {
    pub name: &'static str,
    pub ep: Endpoint,
}

impl OpenAiCompat {
    /// Identify whatever answered the listing here: by what it says it is
    /// owned by, or else as the port's conventional occupant.
    pub fn at(ep: Endpoint, fallback: &'static str, status: u16, body: &str) -> (r: Option<OpenAiCompat>)
        ensures
            r is Some <==> status == 200,
            r matches Some(x) ==> x.ep@ == ep@ && x.name@ == (match owner_of(body@) {
                Some(t) => t,
                None => fallback@,
            }),
    {
        if status != 200 {
            return None;
        }
        let name = match owner_tag(body) {
            Some(t) => t,
            None => fallback,
        };
        Some(OpenAiCompat { name, ep })
    }

    /// Why a generation here is refused.
    pub fn refusal(&self) -> (r: String)
        ensures
            r@ == self.name@
                + " does not report its own prefill/decode timings, so a measurement taken here would include HTTP and scheduling overhead"@,
    {
        concat2(
            self.name,
            " does not report its own prefill/decode timings, so a measurement taken here would include HTTP and scheduling overhead",
        )
    }
}

impl Runtime for OpenAiCompat {
    open spec fn tag(&self) -> Seq<char> {
        self.name@
    }

    open spec fn place(&self) -> EndpointView {
        self.ep@
    }

    open spec fn reports_split(&self) -> bool {
        false
    }

    fn name(&self) -> (r: &'static str) {
        self.name
    }

    fn endpoint(&self) -> (r: &Endpoint) {
        &self.ep
    }

    fn calibratable(&self) -> (r: bool) {
        false
    }
}

/// A place to look, and who usually listens there.
pub struct Place {
    pub ep: Endpoint,
    pub fallback: &'static str,
}

/// What a [`Place`] holds.
pub open spec fn place_view(p: Place) -> (EndpointView, Seq<char>) {
    (p.ep@, p.fallback@)
}

pub open spec fn place_views(v: Seq<Place>) -> Seq<(EndpointView, Seq<char>)> {
    v.map_values(|p: Place| place_view(p))
}

pub open spec fn known_places() -> Seq<(EndpointView, Seq<char>)> {
    seq![
        (EndpointView { host: "127.0.0.1"@, port: 8000 }, "vllm"@),
        (EndpointView { host: "127.0.0.1"@, port: 8080 }, "mlx"@),
        (EndpointView { host: "127.0.0.1"@, port: 12434 }, "docker-model-runner"@),
    ]
}

/// The places that nobody has claimed.
pub open spec fn unclaimed(p: Seq<(EndpointView, Seq<char>)>, claimed: Seq<EndpointView>) -> Seq<(EndpointView, Seq<char>)>
    decreases p.len(),
{
    if p.len() == 0 {
        p
    } else {
        let rest = unclaimed(p.drop_last(), claimed);
        if claimed.contains(p.last().0) {
            rest
        } else {
            rest.push(p.last())
        }
    }
}

pub open spec fn endpoint_views(v: Seq<Endpoint>) -> Seq<EndpointView> {
    v.map_values(|e: Endpoint| e@)
}

fn is_claimed(claimed: &Vec<Endpoint>, e: &Endpoint) -> (r: bool)
    ensures
        r == endpoint_views(claimed@).contains(e@),
{
    let mut i: usize = 0;
    while i < claimed.len()
        invariant
            i <= claimed@.len(),
            forall|j: int| 0 <= j < i ==> (#[trigger] claimed@[j])@ != e@,
        decreases claimed@.len() - i,
    {
        if claimed[i].is(e) {
            assert(endpoint_views(claimed@)[i as int] == e@);
            return true;
        }
        i += 1;
    }
    assert forall|j: int| 0 <= j < endpoint_views(claimed@).len() implies endpoint_views(claimed@)[j] != e@ by {
        assert(endpoint_views(claimed@)[j] == claimed@[j]@);
    }
    false
}

/// Every place to look for an OpenAI-compatible server that no other runtime
/// has claimed. MLX shares a port with llama.cpp, which is probed first.
pub fn detect_all(claimed: &Vec<Endpoint>) -> (r: Vec<Place>)
    ensures
        place_views(r@) == unclaimed(known_places(), endpoint_views(claimed@)),
{
    let mut out: Vec<Place> = Vec::new();
    let ghost c = endpoint_views(claimed@);
    let ghost k = known_places();
    reveal_with_fuel(unclaimed, 4);
    assert(k.drop_last() =~= seq![k[0], k[1]]);
    assert(k.drop_last().drop_last() =~= seq![k[0]]);
    assert(k.drop_last().drop_last().drop_last() =~= Seq::empty());
    let a = Place { ep: Endpoint::local(8000), fallback: "vllm" };
    let b = Place { ep: Endpoint::local(8080), fallback: "mlx" };
    let d = Place { ep: Endpoint::local(12434), fallback: "docker-model-runner" };
    assert(place_view(a) == k[0] && place_view(b) == k[1] && place_view(d) == k[2]);
    if !is_claimed(claimed, &a.ep) {
        out.push(a);
    }
    if !is_claimed(claimed, &b.ep) {
        out.push(b);
    }
    if !is_claimed(claimed, &d.ep) {
        out.push(d);
    }
    assert(place_views(out@) =~= unclaimed(k, c));
    out
}

} // verus!
