//! llama.cpp's `llama-server`.
//!
//! Its completion endpoint returns timings measured inside the process. It is
//! identified through its own properties, because MLX's server defaults to the
//! same port and answers the same listing. It gives no attention geometry, so
//! the description comes from the catalog.

use vstd::prelude::*;
use crate::chars::{copy, dec, decimal};
use crate::double::{Double, THOUSAND_BITS};
use crate::json;
use crate::json::{escape, escaped, object_text, objects_at, string_at, whole_at};
use crate::runtime::ollama::{failure, failure_text, positive};
use crate::runtime::openai::{listed_models, parse_models};
use crate::runtime::{
    as_count32, count32, installed_views, measurement_prompt, number_or_none, number_or_zero, per_second, prompt_text, rate_over, Endpoint, EndpointView,
    InstalledModel, RunStats, Runtime,
};

verus! {

pub const DEFAULT_PORT: u16 = 8080;

pub struct LlamaCpp {
    pub ep: Endpoint,
    /// Context the server was launched with; there is no per-request setting.
    pub n_ctx: Option<u32>,
}

/// Fields that nothing else serving this port emits.
pub open spec fn is_llama_props(props: Seq<char>) -> bool {
    string_at(props, "build_info"@) is Some || string_at(props, "model_path"@) is Some || object_text(
        props,
        "default_generation_settings"@,
    ) is Some
}

/// The context the server's properties state.
pub open spec fn launched_ctx(props: Seq<char>) -> Option<nat> {
    match object_text(props, "default_generation_settings"@) {
        Some(o) => positive(whole_at(o, "n_ctx"@, u32::MAX as nat)),
        None => None,
    }
}

fn is_llama_cpp(props: &str) -> (r: bool)
    ensures
        r == is_llama_props(props@),
{
    json::string(props, "build_info").is_some() || json::string(props, "model_path").is_some() || json::object_at(
        props,
        "default_generation_settings",
    ).is_some()
}

fn server_ctx(props: &str) -> (r: Option<u32>)
    ensures
        match r {
            Some(n) => launched_ctx(props@) == Some(n as nat),
            None => launched_ctx(props@) is None,
        },
{
    match json::object_at(props, "default_generation_settings") {
        Some(o) => match json::whole32(o, "n_ctx") {
            Some(n) => if n > 0 {
                Some(n)
            } else {
                None
            },
            None => None,
        },
        None => None,
    }
}

impl LlamaCpp {
    /// Positive identification by what the properties endpoint answered, not
    /// merely that something did.
    pub fn at(ep: Endpoint, status: u16, props: &str) -> (r: Option<LlamaCpp>)
        ensures
            r is Some <==> status == 200 && is_llama_props(props@),
            r matches Some(x) ==> x.ep@ == ep@ && (match x.n_ctx {
                Some(n) => launched_ctx(props@) == Some(n as nat),
                None => launched_ctx(props@) is None,
            }),
    {
        if status != 200 || !is_llama_cpp(props) {
            return None;
        }
        Some(LlamaCpp { ep, n_ctx: server_ctx(props) })
    }

    /// The endpoint to look at.
    pub fn detect(value: Option<&str>) -> (r: Endpoint)
        ensures
            r@ == crate::runtime::endpoint_for(crate::report::opt_str(value), DEFAULT_PORT as nat),
    {
        Endpoint::from_env(value, DEFAULT_PORT)
    }
}

impl Runtime for LlamaCpp {
    open spec fn tag(&self) -> Seq<char> {
        "llamacpp"@
    }

    open spec fn place(&self) -> EndpointView {
        self.ep@
    }

    open spec fn reports_split(&self) -> bool {
        true
    }

    fn name(&self) -> (r: &'static str) {
        "llamacpp"
    }

    fn endpoint(&self) -> (r: &Endpoint) {
        &self.ep
    }

    fn calibratable(&self) -> (r: bool) {
        true
    }
}

impl LlamaCpp {
    /// The models of the listing that came.
    pub fn list(&self, body: &str) -> (r: Vec<InstalledModel>)
        ensures
            installed_views(r@) == listed_models(objects_at(body@, "data"@)),
    {
        parse_models(body)
    }

    /// The timings of a completion by the answer that came. The context is the
    /// one the server was launched with.
    pub fn generate(&self, model: &str, status: u16, body: &str) -> (r: Result<RunStats, String>)
        ensures
            match r {
                Ok(t) => status == 200 && completed(t, model@, self.n_ctx, body@),
                Err(e) => status != 200 && e@ == failure_text("llama-server"@, status as nat, body@),
            },
    {
        if status != 200 {
            return Err(failure("llama-server", status, body));
        }
        Ok(parse_completion(body, model, self.n_ctx))
    }
}

/// What is asked to have a generation measured. The cache is refused as well
/// as defeated by the nonce: a cached prefill would corrupt the coefficient.
pub fn completion_body(num_predict: u32, nonce: u64) -> (o: String)
    ensures
        o@ == "{\"prompt\":\""@ + escaped(prompt_text(nonce as nat)) + "\",\"n_predict\":"@ + dec(num_predict as nat)
            + ",\"temperature\":0,\"cache_prompt\":false,\"stream\":false}"@,
{
    let mut o = copy("{\"prompt\":\"");
    o.append(escape(measurement_prompt(nonce).as_str()).as_str());
    o.append("\",\"n_predict\":");
    o.append(decimal(num_predict as u128).as_str());
    o.append(",\"temperature\":0,\"cache_prompt\":false,\"stream\":false}");
    o
}

/// The part of a response that holds the timings.
pub open spec fn timings_in(body: Seq<char>) -> Seq<char> {
    match object_text(body, "timings"@) {
        Some(t) => t,
        None => body,
    }
}

/// What a completion's answer comes to. Times are milliseconds, and the server
/// holds the model resident, so nothing is loaded per request.
pub open spec fn completed(r: RunStats, model: Seq<char>, n_ctx: Option<u32>, body: Seq<char>) -> bool {
    let t = timings_in(body);
    let milli = Double { bits: THOUSAND_BITS };
    &&& r.model@ == model
    &&& r.prompt_tokens as nat == count32(number_or_zero(t, "prompt_n"@))
    &&& r.eval_tokens as nat == count32(number_or_zero(t, "predicted_n"@))
    &&& r.prefill_tok_s == rate_over(number_or_zero(t, "prompt_n"@), number_or_zero(t, "prompt_ms"@), milli)
    &&& r.decode_tok_s == rate_over(number_or_zero(t, "predicted_n"@), number_or_zero(t, "predicted_ms"@), milli)
    &&& r.load_s.bits == 0
    &&& r.n_ctx == n_ctx
}

/// The rates of a completion, with the context the server was launched with.
pub fn parse_completion(body: &str, model: &str, n_ctx: Option<u32>) -> (r: RunStats)
    ensures
        completed(r, model@, n_ctx, body@),
{
    let t = match json::object_at(body, "timings") {
        Some(t) => t,
        None => body,
    };
    let milli = Double::from_bits(THOUSAND_BITS);
    let prompts = number_or_none(t, "prompt_n");
    let evals = number_or_none(t, "predicted_n");
    RunStats {
        model: copy(model),
        prompt_tokens: as_count32(prompts),
        eval_tokens: as_count32(evals),
        prefill_tok_s: per_second(prompts, number_or_none(t, "prompt_ms"), milli),
        decode_tok_s: per_second(evals, number_or_none(t, "predicted_ms"), milli),
        load_s: Double::from_bits(0),
        n_ctx,
    }
}

} // verus!
