//! Ollama.
//!
//! It reports its own timings, prompt and evaluation apart, measured inside
//! the process; and it serves full GGUF metadata, so it can calibrate any
//! model the user has rather than only catalogued ones.

use vstd::prelude::*;
use crate::chars::{concat3, copy, dec, decimal, uppercase};
use crate::double::{Double, BILLION_BITS};
use crate::json;
use crate::json::{at_most, escape, escaped, objects_at, slices, string_at, suffix_at, whole_at};
use crate::runtime::{
    as_count32, bare_model, count32, installed_views, measurement_prompt, number_or_none, number_or_zero, per_second, prompt_text, rate_over, Endpoint,
    EndpointView, InstalledModel, InstalledView, RunStats, Runtime,
};
use crate::spec::{family_of_label, quant_views, Attention, ModelSpec, ModelView, Moe, Quant, QuantFamily, QuantView};

verus! {

pub const DEFAULT_PORT: u16 = 11434;

/// Map a GGUF quantisation label to its family.
pub fn quant_family(label: &str) -> (r: QuantFamily)
    ensures
        r == family_of_label(uppercase(label@)),
{
    QuantFamily::from_gguf_label(label)
}

/// The Ollama runtime.
pub struct Ollama {
    pub ep: Endpoint,
}

impl Ollama {
    /// The runtime at an endpoint, by how it answered for its models.
    pub fn at(ep: Endpoint, status: u16) -> (r: Option<Ollama>)
        ensures
            r is Some <==> status == 200,
            r matches Some(x) ==> x.ep@ == ep@,
    {
        if status == 200 {
            Some(Ollama { ep })
        } else {
            None
        }
    }

    /// The endpoint to look at.
    pub fn detect(value: Option<&str>) -> (r: Endpoint)
        ensures
            r@ == crate::runtime::endpoint_for(crate::report::opt_str(value), DEFAULT_PORT as nat),
    {
        Endpoint::from_env(value, DEFAULT_PORT)
    }
}

impl Runtime for Ollama {
    open spec fn tag(&self) -> Seq<char> {
        "ollama"@
    }

    open spec fn place(&self) -> EndpointView {
        self.ep@
    }

    open spec fn reports_split(&self) -> bool {
        true
    }

    fn name(&self) -> (r: &'static str) {
        "ollama"
    }

    fn endpoint(&self) -> (r: &Endpoint) {
        &self.ep
    }

    fn calibratable(&self) -> (r: bool) {
        true
    }
}

impl Ollama {
    /// Installed models, largest first, by the listing that came.
    pub fn list(&self, body: &str) -> (r: Vec<InstalledModel>)
        ensures
            installed_views(r@) == tagged_models(objects_at(body@, "models"@)),
    {
        parse_tags(body)
    }

    /// A model by the metadata that came: the one runtime that has it, and so
    /// can measure models the catalog has never heard of.
    pub fn describe(&self, model: &InstalledModel, status: u16, body: &str) -> (r: Option<ModelSpec>)
        ensures
            match r {
                Some(m) => status == 200 && shown_model(body@, model@) == Some(m@),
                None => status != 200 || shown_model(body@, model@) is None,
            },
    {
        if status != 200 {
            return None;
        }
        parse_show(body, model)
    }

    /// The timings of a generation by the answer that came.
    pub fn generate(&self, model: &str, status: u16, body: &str) -> (r: Result<RunStats, String>)
        ensures
            match r {
                Ok(t) => status == 200 && generated(t, model@, body@),
                Err(e) => status != 200 && e@ == failure_text("ollama"@, status as nat, body@),
            },
    {
        if status != 200 {
            return Err(failure("ollama", status, body));
        }
        Ok(parse_generate(body, model))
    }
}

// -------------------------------------------------------------------- listing

/// A model of the listing.
pub open spec fn tagged_model(obj: Seq<char>) -> Option<InstalledView> {
    let name = match string_at(obj, "name"@) {
        Some(n) => Some(n),
        None => string_at(obj, "model"@),
    };
    match name {
        Some(n) => Some(
            bare_model(
                n,
                match whole_at(obj, "size"@, u64::MAX as nat) {
                    Some(b) => b,
                    None => 0,
                },
                match string_at(obj, "quantization_level"@) {
                    Some(q) => q,
                    None => "unknown"@,
                },
            ),
        ),
        None => None,
    }
}

/// Where a model of `size` bytes goes among models listed largest first:
/// behind all that are no smaller.
pub open spec fn size_place(v: Seq<InstalledView>, size: nat) -> int
    decreases v.len(),
{
    if v.len() > 0 && v.last().size_bytes < size {
        size_place(v.drop_last(), size)
    } else {
        v.len() as int
    }
}

/// The models of the objects, largest first, those of one size as they came.
pub open spec fn tagged_models(objs: Seq<Seq<char>>) -> Seq<InstalledView>
    decreases objs.len(),
{
    if objs.len() == 0 {
        Seq::empty()
    } else {
        let rest = tagged_models(objs.drop_last());
        match tagged_model(objs.last()) {
            Some(m) => rest.insert(size_place(rest, m.size_bytes), m),
            None => rest,
        }
    }
}

fn tagged(obj: &str) -> (r: Option<InstalledModel>)
    ensures
        match r {
            Some(m) => tagged_model(obj@) == Some(m@),
            None => tagged_model(obj@) is None,
        },
{
    let name = match json::string(obj, "name") {
        Some(n) => n,
        None => match json::string(obj, "model") {
            Some(n) => n,
            None => return None,
        },
    };
    let size_bytes: u64 = match json::whole(obj, "size") {
        Some(n) => n,
        None => 0,
    };
    let quant = match json::string(obj, "quantization_level") {
        Some(q) => q,
        None => copy("unknown"),
    };
    Some(InstalledModel { name, size_bytes, quant, params: None, n_embd: None, n_vocab: None })
}

fn insert_model(v: &mut Vec<InstalledModel>, m: InstalledModel)
    ensures
        installed_views(final(v)@) == installed_views(old(v)@).insert(
            size_place(installed_views(old(v)@), m@.size_bytes),
            m@,
        ),
{
    let ghost views = installed_views(v@);
    let mut p: usize = v.len();
    assert(views.subrange(0, views.len() as int) =~= views);
    while p > 0 && v[p - 1].size_bytes < m.size_bytes
        invariant
            p <= v@.len(),
            v@ == old(v)@,
            views == installed_views(v@),
            size_place(views.subrange(0, p as int), m@.size_bytes) == size_place(views, m@.size_bytes),
        decreases p,
    {
        assert(views.subrange(0, p as int).drop_last() =~= views.subrange(0, p - 1));
        assert(views.subrange(0, p as int).last() == v@[p - 1]@);
        p -= 1;
    }
    if p > 0 {
        assert(views.subrange(0, p as int).last() == v@[p - 1]@);
    }
    assert(size_place(views, m@.size_bytes) == p);
    v.insert(p, m);
    assert(installed_views(v@) =~= views.insert(p as int, m@));
}

/// Installed models, largest first.
pub fn parse_tags(body: &str) -> (r: Vec<InstalledModel>)
    ensures
        installed_views(r@) == tagged_models(objects_at(body@, "models"@)),
{
    let objs = json::array_objects(body, "models");
    let ghost all = slices(objs@);
    let mut out: Vec<InstalledModel> = Vec::new();
    let mut i: usize = 0;
    assert(installed_views(out@) =~= tagged_models(all.subrange(0, 0)));
    while i < objs.len()
        invariant
            i <= objs@.len(),
            all == slices(objs@),
            installed_views(out@) == tagged_models(all.subrange(0, i as int)),
        decreases objs@.len() - i,
    {
        assert(all.subrange(0, i + 1).drop_last() =~= all.subrange(0, i as int));
        assert(all.subrange(0, i + 1).last() == objs@[i as int]@);
        if let Some(m) = tagged(objs[i]) {
            insert_model(&mut out, m);
        }
        i += 1;
    }
    assert(all.subrange(0, i as int) =~= all);
    out
}

proof fn lemma_size_place(v: Seq<InstalledView>, size: nat)
    ensures
        0 <= size_place(v, size) <= v.len(),
        size_place(v, size) > 0 ==> v[size_place(v, size) - 1].size_bytes >= size,
        forall|i: int| size_place(v, size) <= i < v.len() ==> (#[trigger] v[i]).size_bytes < size,
    decreases v.len(),
{
    if v.len() > 0 && v.last().size_bytes < size {
        lemma_size_place(v.drop_last(), size);
        let p = size_place(v, size);
        assert forall|i: int| p <= i < v.len() implies (#[trigger] v[i]).size_bytes < size by {
            if i < v.len() - 1 {
                assert(v.drop_last()[i] == v[i]);
            }
        }
        if p > 0 {
            assert(v.drop_last()[p - 1] == v[p - 1]);
        }
    }
}

/// No model is listed before a larger one.
pub proof fn tags_are_listed_largest_first(objs: Seq<Seq<char>>)
    ensures
        forall|i: int, j: int| 0 <= i < j < tagged_models(objs).len() ==> (#[trigger] tagged_models(objs)[i]).size_bytes >= (
        #[trigger] tagged_models(objs)[j]).size_bytes,
    decreases objs.len(),
{
    if objs.len() > 0 {
        let rest = tagged_models(objs.drop_last());
        tags_are_listed_largest_first(objs.drop_last());
        if let Some(m) = tagged_model(objs.last()) {
            let p = size_place(rest, m.size_bytes);
            lemma_size_place(rest, m.size_bytes);
            let out = rest.insert(p, m);
            assert forall|i: int, j: int| 0 <= i < j < out.len() implies (#[trigger] out[i]).size_bytes >= (#[trigger] out[j]).size_bytes by {
                let x = if i < p { rest[i] } else if i == p { m } else { rest[i - 1] };
                let y = if j < p { rest[j] } else if j == p { m } else { rest[j - 1] };
                assert(out[i] == x && out[j] == y);
                if i < p && j == p {
                    assert(rest[i].size_bytes >= rest[p - 1].size_bytes);
                }
            }
        }
    }
}

// ------------------------------------------------------------------- metadata

/// The number of the first key with that suffix, as a count.
pub open spec fn suffix_count(s: Seq<char>, suffix: Seq<char>, max: nat) -> Option<nat> {
    match suffix_at(s, suffix) {
        Some(d) => Some(at_most(d.to_count(), max)),
        None => None,
    }
}

pub open spec fn small(s: Seq<char>, suffix: Seq<char>) -> Option<nat> {
    suffix_count(s, suffix, u32::MAX as nat)
}

/// `n` where it says something.
pub open spec fn positive(n: Option<nat>) -> Option<nat> {
    match n {
        Some(x) => if x > 0 {
            Some(x)
        } else {
            None
        },
        None => None,
    }
}

pub open spec fn or(n: Option<nat>, other: nat) -> nat {
    match n {
        Some(x) => x,
        None => other,
    }
}

/// The width of a head: stated, or the embedding divided among the heads, or
/// the usual 128.
pub open spec fn head_width(s: Seq<char>, n_embd: nat, n_heads: nat) -> nat {
    match positive(small(s, ".attention.key_length"@)) {
        Some(d) => d,
        None => if n_heads > 0 {
            n_embd / n_heads
        } else {
            128
        },
    }
}

pub open spec fn shown_params(s: Seq<char>) -> nat {
    match whole_at(s, "parameter_count"@, u64::MAX as nat) {
        Some(n) => n,
        None => or(suffix_count(s, ".parameter_count"@, u64::MAX as nat), 0),
    }
}

/// Sliding-window models cap KV growth on most layers; the key being there is
/// the signal. A window without a pattern is taken as five local layers to one
/// global.
pub open spec fn shown_attention(s: Seq<char>, n_embd: nat) -> Attention {
    let heads = or(small(s, ".attention.head_count"@), 0);
    let kv = or(small(s, ".attention.head_count_kv"@), 0);
    let n_kv_heads = if kv >= 1 { kv as u32 } else { 1 };
    let head_dim = head_width(s, n_embd, heads) as u32;
    match positive(small(s, ".attention.sliding_window"@)) {
        Some(w) => Attention::Swa {
            n_kv_heads,
            head_dim,
            window: w as u32,
            global_every: or(positive(small(s, ".attention.sliding_window_pattern"@)), 6) as u32,
        },
        None => Attention::Gqa { n_kv_heads, head_dim },
    }
}

/// `n` as 64 bits hold it.
pub open spec fn wrap64(n: nat) -> nat {
    n % 0x1_0000_0000_0000_0000
}

/// Parameters of one expert: gate, up and down projections.
pub open spec fn expert_size(s: Seq<char>, n_embd: nat) -> nat {
    let ff = or(suffix_count(s, ".expert_feed_forward_length"@, u64::MAX as nat), 0);
    wrap64(3 * n_embd * ff)
}

pub open spec fn shown_moe(s: Seq<char>, n_embd: nat, n_layers: nat, params: nat) -> Option<Moe> {
    let n_expert = or(small(s, ".expert_count"@), 0);
    if n_expert == 0 {
        None
    } else {
        let e = expert_size(s, n_embd);
        let routed = wrap64(wrap64(e * n_expert) * n_layers);
        Some(
            Moe {
                n_expert: n_expert as u32,
                n_active: or(small(s, ".expert_used_count"@), 2) as u32,
                expert_params: e as u64,
                shared_params: (if params >= routed { params - routed } else { 0 }) as u64,
            },
        )
    }
}

/// The model the metadata describes: every field is read, and where a key is
/// absent the fallback is as stated. Nothing without layers or an embedding.
pub open spec fn shown_model(s: Seq<char>, m: InstalledView) -> Option<ModelView> {
    match (positive(small(s, ".block_count"@)), positive(small(s, ".embedding_length"@))) {
        (Some(n_layers), Some(n_embd)) => {
            let params = shown_params(s);
            Some(
                ModelView {
                    id: m.name,
                    n_layers,
                    n_embd,
                    n_vocab: or(positive(small(s, ".vocab_size"@)), 32000),
                    params: if params >= 1 { params } else { 1 },
                    attention: shown_attention(s, n_embd),
                    moe: shown_moe(s, n_embd, n_layers, params),
                    n_ctx_train: match positive(small(s, ".context_length"@)) {
                        Some(n) => Some(n as u32),
                        None => None,
                    },
                    quants: seq![
                        QuantView { name: m.quant, bytes: m.size_bytes, family: family_of_label(uppercase(m.quant)) },
                    ],
                },
            )
        },
        _ => None,
    }
}

fn suffix_upto(s: &str, suffix: &str, max: u64) -> (r: Option<u64>)
    ensures
        match r {
            Some(n) => suffix_count(s@, suffix@, max as nat) == Some(n as nat) && n <= max,
            None => suffix_count(s@, suffix@, max as nat) is None,
        },
{
    match json::number_by_suffix(s, suffix) {
        Some(d) => {
            let n: u64 = d.as_count();
            Some(if n <= max { n } else { max })
        },
        None => None,
    }
}

fn suffix32(s: &str, suffix: &str) -> (r: Option<u32>)
    ensures
        match r {
            Some(n) => small(s@, suffix@) == Some(n as nat),
            None => small(s@, suffix@) is None,
        },
{
    match suffix_upto(s, suffix, u32::MAX as u64) {
        Some(n) => Some(n as u32),
        None => None,
    }
}

fn suffix32_positive(s: &str, suffix: &str) -> (r: Option<u32>)
    ensures
        match r {
            Some(n) => positive(small(s@, suffix@)) == Some(n as nat) && n > 0,
            None => positive(small(s@, suffix@)) is None,
        },
{
    match suffix32(s, suffix) {
        Some(n) => if n > 0 {
            Some(n)
        } else {
            None
        },
        None => None,
    }
}

fn suffix32_or(s: &str, suffix: &str, other: u32) -> (r: u32)
    ensures
        r as nat == or(small(s@, suffix@), other as nat),
{
    match suffix32(s, suffix) {
        Some(n) => n,
        None => other,
    }
}

fn read_attention(s: &str, n_embd: u32) -> (r: Attention)
    ensures
        r == shown_attention(s@, n_embd as nat),
{
    let n_heads: u32 = suffix32_or(s, ".attention.head_count", 0);
    let kv: u32 = suffix32_or(s, ".attention.head_count_kv", 0);
    let n_kv_heads: u32 = if kv >= 1 { kv } else { 1 };
    let head_dim: u32 = match suffix32_positive(s, ".attention.key_length") {
        Some(d) => d,
        None => if n_heads > 0 {
            n_embd / n_heads
        } else {
            128
        },
    };
    proof {
        if n_heads > 0 {
            vstd::arithmetic::div_mod::lemma_div_nonincreasing(n_embd as int, n_heads as int);
        }
    }
    match suffix32_positive(s, ".attention.sliding_window") {
        Some(window) => {
            let global_every: u32 = match suffix32_positive(s, ".attention.sliding_window_pattern") {
                Some(g) => g,
                None => 6,
            };
            Attention::Swa { n_kv_heads, head_dim, window, global_every }
        },
        None => Attention::Gqa { n_kv_heads, head_dim },
    }
}

fn read_params(s: &str) -> (r: u64)
    ensures
        r as nat == shown_params(s@),
{
    match json::whole(s, "parameter_count") {
        Some(n) => n,
        None => match suffix_upto(s, ".parameter_count", u64::MAX) {
            Some(n) => n,
            None => 0,
        },
    }
}

fn read_moe(s: &str, n_embd: u32, n_layers: u32, params: u64) -> (r: Option<Moe>)
    ensures
        r == shown_moe(s@, n_embd as nat, n_layers as nat, params as nat),
{
    let n_expert: u32 = suffix32_or(s, ".expert_count", 0);
    if n_expert == 0 {
        return None;
    }
    let ff: u64 = match suffix_upto(s, ".expert_feed_forward_length", u64::MAX) {
        Some(n) => n,
        None => 0,
    };
    let three: u64 = 3 * n_embd as u64;
    let expert_params: u64 = three.wrapping_mul(ff);
    let per_layer: u64 = expert_params.wrapping_mul(n_expert as u64);
    let routed: u64 = per_layer.wrapping_mul(n_layers as u64);
    assert(3 * n_embd as nat * ff as nat == three as nat * ff as nat);
    let n_active: u32 = suffix32_or(s, ".expert_used_count", 2);
    Some(Moe { n_expert, n_active, expert_params, shared_params: params.saturating_sub(routed) })
}

/// Build a model's description from the runtime's own GGUF metadata.
pub fn parse_show(s: &str, model: &InstalledModel) -> (r: Option<ModelSpec>)
    ensures
        match r {
            Some(m) => shown_model(s@, model@) == Some(m@),
            None => shown_model(s@, model@) is None,
        },
{
    let n_layers: u32 = match suffix32_positive(s, ".block_count") {
        Some(n) => n,
        None => return None,
    };
    let n_embd: u32 = match suffix32_positive(s, ".embedding_length") {
        Some(n) => n,
        None => return None,
    };
    let params: u64 = read_params(s);
    let n_vocab: u32 = match suffix32_positive(s, ".vocab_size") {
        Some(n) => n,
        None => 32000,
    };
    let mut quants: Vec<Quant> = Vec::new();
    let family = quant_family(model.quant.as_str());
    quants.push(Quant { name: copy(model.quant.as_str()), bytes: model.size_bytes, family });
    assert(quant_views(quants@) =~= seq![
        QuantView { name: model@.quant, bytes: model@.size_bytes, family: family_of_label(uppercase(model@.quant)) },
    ]);
    Some(
        ModelSpec {
            id: copy(model.name.as_str()),
            n_layers,
            n_embd,
            n_vocab,
            params: if params >= 1 { params } else { 1 },
            attention: read_attention(s, n_embd),
            moe: read_moe(s, n_embd, n_layers, params),
            n_ctx_train: suffix32_positive(s, ".context_length"),
            quants,
        },
    )
}

// ------------------------------------------------------------------ exchanges

/// What is asked to have a model described.
pub fn show_body(model: &str) -> (o: String)
    ensures
        o@ == "{\"model\":\""@ + escaped(model@) + "\"}"@,
{
    concat3("{\"model\":\"", escape(model).as_str(), "\"}")
}

/// What is asked to have a generation measured.
pub fn generate_body(model: &str, num_predict: u32, num_ctx: u32, nonce: u64) -> (o: String)
    ensures
        o@ == "{\"model\":\""@ + escaped(model@) + "\",\"prompt\":\""@ + escaped(prompt_text(nonce as nat))
            + "\",\"stream\":false,\"options\":{\"num_predict\":"@ + dec(num_predict as nat) + ",\"num_ctx\":"@ + dec(
            num_ctx as nat,
        ) + ",\"temperature\":0}}"@,
{
    let mut o = copy("{\"model\":\"");
    o.append(escape(model).as_str());
    o.append("\",\"prompt\":\"");
    o.append(escape(measurement_prompt(nonce).as_str()).as_str());
    o.append("\",\"stream\":false,\"options\":{\"num_predict\":");
    o.append(decimal(num_predict as u128).as_str());
    o.append(",\"num_ctx\":");
    o.append(decimal(num_ctx as u128).as_str());
    o.append(",\"temperature\":0}}");
    o
}

/// What a generation's answer comes to. Durations are nanoseconds, and the
/// context that was asked for is the one that ran.
pub open spec fn generated(r: RunStats, model: Seq<char>, s: Seq<char>) -> bool {
    let nano = Double { bits: BILLION_BITS };
    &&& r.model@ == model
    &&& r.prompt_tokens as nat == count32(number_or_zero(s, "prompt_eval_count"@))
    &&& r.eval_tokens as nat == count32(number_or_zero(s, "eval_count"@))
    &&& r.prefill_tok_s == rate_over(
        number_or_zero(s, "prompt_eval_count"@),
        number_or_zero(s, "prompt_eval_duration"@),
        nano,
    )
    &&& r.decode_tok_s == rate_over(number_or_zero(s, "eval_count"@), number_or_zero(s, "eval_duration"@), nano)
    &&& r.load_s == number_or_zero(s, "load_duration"@).quotient(nano)
    &&& r.n_ctx is None
}

/// The rates of a generation.
pub fn parse_generate(s: &str, model: &str) -> (r: RunStats)
    ensures
        generated(r, model@, s@),
{
    let nano = Double::from_bits(BILLION_BITS);
    let prompts = number_or_none(s, "prompt_eval_count");
    let evals = number_or_none(s, "eval_count");
    RunStats {
        model: copy(model),
        prompt_tokens: as_count32(prompts),
        eval_tokens: as_count32(evals),
        prefill_tok_s: per_second(prompts, number_or_none(s, "prompt_eval_duration"), nano),
        decode_tok_s: per_second(evals, number_or_none(s, "eval_duration"), nano),
        load_s: number_or_none(s, "load_duration").over(nano),
        n_ctx: None,
    }
}

/// The first 200 characters of a text.
pub open spec fn excerpt_text(s: Seq<char>) -> Seq<char> {
    if s.len() > 200 {
        s.subrange(0, 200)
    } else {
        s
    }
}

pub open spec fn failure_text(runtime: Seq<char>, status: nat, body: Seq<char>) -> Seq<char> {
    runtime + " returned "@ + dec(status) + ": "@ + excerpt_text(body)
}

/// Why a generation failed, by the runtime's name and what it answered.
pub fn failure(runtime: &str, status: u16, body: &str) -> (o: String)
    ensures
        o@ == failure_text(runtime@, status as nat, body@),
{
    let mut o = copy(runtime);
    o.append(" returned ");
    o.append(decimal(status as u128).as_str());
    o.append(": ");
    if body.unicode_len() > 200 {
        o.append(body.substring_char(0, 200));
    } else {
        o.append(body);
    }
    o
}

} // verus!
