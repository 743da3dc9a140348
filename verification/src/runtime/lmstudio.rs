//! LM Studio.
//!
//! Its native surface returns a block of statistics measured by the runtime
//! itself, so this speaks that surface only. Like llama.cpp it reports no
//! attention geometry.

use vstd::prelude::*;
use crate::chars::{copy, dec, decimal, same};
use crate::json;
use crate::json::{escape, escaped, object_text, objects_at, slices, string_at, whole_at};
use crate::double::Double;
use crate::runtime::ollama::{failure, failure_text};
use crate::runtime::{
    as_count32, bare_model, count32, installed_views, measurement_prompt, number_or_none, number_or_zero, prompt_text, Endpoint, EndpointView,
    InstalledModel, InstalledView, RunStats, Runtime,
};

verus! {

pub const DEFAULT_PORT: u16 = 1234;

pub struct LmStudio {
    pub ep: Endpoint,
}

impl LmStudio {
    /// The runtime at an endpoint, by how it answered for its models.
    pub fn at(ep: Endpoint, status: u16) -> (r: Option<LmStudio>)
        ensures
            r is Some <==> status == 200,
            r matches Some(x) ==> x.ep@ == ep@,
    {
        if status == 200 {
            Some(LmStudio { ep })
        } else {
            None
        }
    }

    /// The endpoint to look at.
    pub fn detect(value: Option<&str>) -> (r: Endpoint)
        ensures
            r@ == crate::runtime::endpoint_for(crate::report::opt_str(value), DEFAULT_PORT as nat),
    {
        Endpoint::from_env(value, DEFAULT_PORT)
    }
}

impl Runtime for LmStudio {
    open spec fn tag(&self) -> Seq<char> {
        "lmstudio"@
    }

    open spec fn place(&self) -> EndpointView {
        self.ep@
    }

    open spec fn reports_split(&self) -> bool {
        true
    }

    fn name(&self) -> (r: &'static str) {
        "lmstudio"
    }

    fn endpoint(&self) -> (r: &Endpoint) {
        &self.ep
    }

    fn calibratable(&self) -> (r: bool) {
        true
    }
}

impl LmStudio {
    /// The models of the listing that came, those that can generate.
    pub fn list(&self, body: &str) -> (r: Vec<InstalledModel>)
        ensures
            installed_views(r@) == listed_models(objects_at(body@, "data"@)),
    {
        parse_models(body)
    }

    /// The timings of a completion by the answer that came.
    pub fn generate(&self, model: &str, status: u16, body: &str) -> (r: Result<RunStats, String>)
        ensures
            match r {
                Ok(t) => status == 200 && completed(t, model@, body@),
                Err(e) => status != 200 && e@ == failure_text("lm studio"@, status as nat, body@),
            },
    {
        if status != 200 {
            return Err(failure("lm studio", status, body));
        }
        Ok(parse_completion(body, model))
    }
}

/// A model of the listing that can generate: embedding models are listed too
/// and cannot. No file size is reported.
pub open spec fn listed_model(obj: Seq<char>) -> Option<InstalledView> {
    match string_at(obj, "id"@) {
        Some(id) => if string_at(obj, "type"@) matches Some(t) && t != "llm"@ && t != "vlm"@ {
            None
        } else {
            Some(
                bare_model(
                    id,
                    0,
                    match string_at(obj, "quantization"@) {
                        Some(q) => q,
                        None => "unknown"@,
                    },
                ),
            )
        },
        None => None,
    }
}

pub open spec fn listed_models(objs: Seq<Seq<char>>) -> Seq<InstalledView>
    decreases objs.len(),
{
    if objs.len() == 0 {
        Seq::empty()
    } else {
        let rest = listed_models(objs.drop_last());
        match listed_model(objs.last()) {
            Some(m) => rest.push(m),
            None => rest,
        }
    }
}

fn listed(obj: &str) -> (r: Option<InstalledModel>)
    ensures
        match r {
            Some(m) => listed_model(obj@) == Some(m@),
            None => listed_model(obj@) is None,
        },
{
    let id = match json::string(obj, "id") {
        Some(id) => id,
        None => return None,
    };
    if let Some(t) = json::string(obj, "type") {
        if !same(t.as_str(), "llm") && !same(t.as_str(), "vlm") {
            return None;
        }
    }
    let quant = match json::string(obj, "quantization") {
        Some(q) => q,
        None => copy("unknown"),
    };
    Some(InstalledModel { name: id, size_bytes: 0, quant, params: None, n_embd: None, n_vocab: None })
}

/// Parse `/api/v0/models`.
pub fn parse_models(body: &str) -> (r: Vec<InstalledModel>)
    ensures
        installed_views(r@) == listed_models(objects_at(body@, "data"@)),
{
    let objs = json::array_objects(body, "data");
    let ghost all = slices(objs@);
    let mut out: Vec<InstalledModel> = Vec::new();
    let mut i: usize = 0;
    assert(installed_views(out@) =~= listed_models(all.subrange(0, 0)));
    while i < objs.len()
        invariant
            i <= objs@.len(),
            all == slices(objs@),
            installed_views(out@) == listed_models(all.subrange(0, i as int)),
        decreases objs@.len() - i,
    {
        assert(all.subrange(0, i + 1).drop_last() =~= all.subrange(0, i as int));
        assert(all.subrange(0, i + 1).last() == objs@[i as int]@);
        let ghost prev = out@;
        if let Some(m) = listed(objs[i]) {
            out.push(m);
            assert(installed_views(out@) =~= installed_views(prev).push(m@));
        }
        i += 1;
    }
    assert(all.subrange(0, i as int) =~= all);
    out
}

/// What is asked to have a generation measured.
pub fn completion_body(model: &str, num_predict: u32, nonce: u64) -> (o: String)
    ensures
        o@ == "{\"model\":\""@ + escaped(model@) + "\",\"messages\":[{\"role\":\"user\",\"content\":\""@ + escaped(
            prompt_text(nonce as nat),
        ) + "\"}],\"temperature\":0,\"max_tokens\":"@ + dec(num_predict as nat) + ",\"stream\":false}"@,
{
    let mut o = copy("{\"model\":\"");
    o.append(escape(model).as_str());
    o.append("\",\"messages\":[{\"role\":\"user\",\"content\":\"");
    o.append(escape(measurement_prompt(nonce).as_str()).as_str());
    o.append("\"}],\"temperature\":0,\"max_tokens\":");
    o.append(decimal(num_predict as u128).as_str());
    o.append(",\"stream\":false}");
    o
}

/// The object at `key`, or the whole response.
pub open spec fn part_of(body: Seq<char>, key: Seq<char>) -> Seq<char> {
    match object_text(body, key) {
        Some(t) => t,
        None => body,
    }
}

pub open spec fn loaded_ctx(body: Seq<char>) -> Option<nat> {
    match object_text(body, "model_info"@) {
        Some(m) => whole_at(m, "context_length"@, u32::MAX as nat),
        None => None,
    }
}

/// The prompt's pass dominates the wait for the first token.
pub open spec fn prefill_rate(tokens: Double, first_token: Double) -> Double {
    if (Double { bits: 0 }).below(first_token) {
        tokens.quotient(first_token)
    } else {
        Double { bits: 0 }
    }
}

/// What a completion's answer comes to. The decode rate is stated as it is,
/// and loading is not broken out of the response.
pub open spec fn completed(r: RunStats, model: Seq<char>, body: Seq<char>) -> bool {
    let stats = part_of(body, "stats"@);
    let usage = part_of(body, "usage"@);
    &&& r.model@ == model
    &&& r.prompt_tokens as nat == count32(number_or_zero(usage, "prompt_tokens"@))
    &&& r.eval_tokens as nat == count32(number_or_zero(usage, "completion_tokens"@))
    &&& r.prefill_tok_s == prefill_rate(
        number_or_zero(usage, "prompt_tokens"@),
        number_or_zero(stats, "time_to_first_token"@),
    )
    &&& r.decode_tok_s == number_or_zero(stats, "tokens_per_second"@)
    &&& r.load_s.bits == 0
    &&& match r.n_ctx {
        Some(n) => loaded_ctx(body) == Some(n as nat),
        None => loaded_ctx(body) is None,
    }
}

/// The rates of a completion, with the context the model was loaded with.
pub fn parse_completion(body: &str, model: &str) -> (r: RunStats)
    ensures
        completed(r, model@, body@),
{
    let stats = match json::object_at(body, "stats") {
        Some(t) => t,
        None => body,
    };
    let usage = match json::object_at(body, "usage") {
        Some(t) => t,
        None => body,
    };
    let n_ctx = match json::object_at(body, "model_info") {
        Some(m) => json::whole32(m, "context_length"),
        None => None,
    };
    let prompts = number_or_none(usage, "prompt_tokens");
    let first = number_or_none(stats, "time_to_first_token");
    RunStats {
        model: copy(model),
        prompt_tokens: as_count32(prompts),
        eval_tokens: as_count32(number_or_none(usage, "completion_tokens")),
        prefill_tok_s: if (Double { bits: 0 }).lt(first) {
            prompts.over(first)
        } else {
            Double { bits: 0 }
        },
        decode_tok_s: number_or_none(stats, "tokens_per_second"),
        load_s: Double::from_bits(0),
        n_ctx,
    }
}

} // verus!
