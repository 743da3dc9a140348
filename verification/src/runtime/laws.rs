//! What is made of a runtime's answers.

use vstd::prelude::*;
use crate::catalog::laws::a_rate_is_a_count_by_a_time;
use crate::double::error::{near, ordinary, quotients_are_near};
use crate::double::{Double, BILLION_BITS, THOUSAND_BITS};
use crate::json::{number_at, string_at, suffix_at, whole_at};
use crate::predict::inversion::{lemma_between, lemma_positive};
use crate::predict::laws::lemma_exactly;
use crate::predict::speed::{lemma_nothing, lemma_powers_of_two, one};
use crate::runtime::llamacpp::{launched_ctx, timings_in};
use crate::runtime::lmstudio::part_of;
use crate::runtime::ollama::{expert_size, generated, shown_attention, shown_model, shown_moe};
use crate::runtime::openai::{label_head, starts_label, unclaimed};
use crate::runtime::{llamacpp, lmstudio, openai, EndpointView, InstalledView, RunStats};
use crate::spec::Attention;

verus! {

// ------------------------------------------------------------------- metadata

/// The metadata state a whole number under a key with that ending.
pub open spec fn says(s: Seq<char>, ending: Seq<char>, n: nat) -> bool {
    suffix_at(s, ending) matches Some(d) && d.to_count() == n
}

/// They state none, or nothing.
pub open spec fn is_silent(s: Seq<char>, ending: Seq<char>) -> bool {
    suffix_at(s, ending) matches Some(d) ==> d.to_count() == 0
}

/// The heads of an attention: how many are kept, and how wide they are.
pub open spec fn heads_of(a: Attention) -> Option<(u32, u32)> {
    match a {
        Attention::Gqa { n_kv_heads, head_dim } => Some((n_kv_heads, head_dim)),
        Attention::Swa { n_kv_heads, head_dim, window, global_every } => Some((n_kv_heads, head_dim)),
        _ => None,
    }
}

/// A head is as wide as it is stated to be. Where that is not stated the
/// embedding is divided among the heads. As many are kept as are stated, one at
/// least.
pub proof fn a_shown_model_has_the_stated_heads(s: Seq<char>, n_embd: nat, n: nat, kv: nat)
    requires
        n_embd <= u32::MAX && n <= u32::MAX && kv <= u32::MAX,
    ensures
        ({
            let h = heads_of(shown_attention(s, n_embd));
            &&& h is Some
            &&& says(s, ".attention.key_length"@, n) && n > 0 ==> (h->0).1 == n
            &&& is_silent(s, ".attention.key_length"@) && says(s, ".attention.head_count"@, n) && n > 0 ==> (h->0).1 * n <= n_embd < ((h->0).1 + 1) * n
            &&& says(s, ".attention.head_count_kv"@, kv) && kv > 0 ==> (h->0).0 == kv
            &&& is_silent(s, ".attention.head_count_kv"@) ==> (h->0).0 == 1
        }),
{
    if n > 0 {
        let q = n_embd / n;
        vstd::arithmetic::div_mod::lemma_fundamental_div_mod(n_embd as int, n as int);
        vstd::arithmetic::div_mod::lemma_div_nonincreasing(n_embd as int, n as int);
        assert(q * n == n * q && (q + 1) * n == q * n + n) by (nonlinear_arith);
    }
}

/// A window is used exactly where one is stated, as wide as it is stated and
/// with the stated pattern.
pub proof fn a_shown_window_is_the_stated_one(s: Seq<char>, n_embd: nat, w: nat, p: nat)
    requires
        0 < w <= u32::MAX && 0 < p <= u32::MAX,
    ensures
        is_silent(s, ".attention.sliding_window"@) ==> shown_attention(s, n_embd) is Gqa,
        says(s, ".attention.sliding_window"@, w) ==> (shown_attention(s, n_embd) matches Attention::Swa { n_kv_heads, head_dim, window, global_every }
            && window == w && (says(s, ".attention.sliding_window_pattern"@, p) ==> global_every == p)),
{
}

/// A model that a runtime shows has the layers, the width, the vocabulary, the
/// parameters and the context that its metadata state, and one quantisation:
/// the one that is installed, with its size. Without layers or a width there is
/// no model.
pub proof fn a_shown_model_has_the_stated_sizes(s: Seq<char>, m: InstalledView, n: nat)
    requires
        0 < n <= u32::MAX,
    ensures
        is_silent(s, ".block_count"@) || is_silent(s, ".embedding_length"@) ==> shown_model(s, m) is None,
        !is_silent(s, ".block_count"@) && !is_silent(s, ".embedding_length"@) ==> shown_model(s, m) is Some,
        shown_model(s, m) matches Some(v) ==> {
            &&& says(s, ".block_count"@, n) ==> v.n_layers == n
            &&& says(s, ".embedding_length"@, n) ==> v.n_embd == n
            &&& says(s, ".vocab_size"@, n) ==> v.n_vocab == n
            &&& says(s, ".context_length"@, n) ==> v.n_ctx_train == Some(n as u32)
            &&& is_silent(s, ".context_length"@) ==> v.n_ctx_train is None
            &&& whole_at(s, "parameter_count"@, u64::MAX as nat) == Some(n) ==> v.params == n
            &&& v.params > 0
            &&& v.id == m.name
            &&& v.quants.len() == 1 && v.quants[0].name == m.quant && v.quants[0].bytes == m.size_bytes
            &&& v.attention == shown_attention(s, v.n_embd)
        },
{
}

/// Experts are three projections each, and what is not in them is shared: all
/// experts of all layers and the shared part add up to the whole.
pub proof fn shown_experts_add_up(s: Seq<char>, n_embd: nat, n_layers: nat, params: nat, experts: nat, ff: nat, used: nat)
    requires
        0 < experts <= u32::MAX && used <= u32::MAX,
        ff <= u64::MAX && params <= u64::MAX,
        says(s, ".expert_count"@, experts),
        says(s, ".expert_feed_forward_length"@, ff),
        says(s, ".expert_used_count"@, used),
        3 * n_embd * ff * experts * n_layers <= params,
        n_layers > 0,
    ensures
        shown_moe(s, n_embd, n_layers, params) matches Some(e) && e.n_expert == experts && e.n_active == used && e.expert_params == 3 * n_embd
            * ff && e.shared_params + e.expert_params * e.n_expert * n_layers == params,
{
    let e = 3 * n_embd * ff;
    assert(e <= e * experts <= e * experts * n_layers) by (nonlinear_arith)
        requires
            experts >= 1,
            n_layers >= 1,
            e >= 0,
    ;
    assert(e % 0x1_0000_0000_0000_0000 == e && (e * experts) % 0x1_0000_0000_0000_0000 == e * experts);
    let r = e * experts * n_layers;
    assert(r % 0x1_0000_0000_0000_0000 == r);
    assert(expert_size(s, n_embd) == e);
}

/// A model without experts has none.
pub proof fn no_experts_are_made_up(s: Seq<char>, n_embd: nat, n_layers: nat, params: nat)
    ensures
        is_silent(s, ".expert_count"@) <==> shown_moe(s, n_embd, n_layers, params) is None,
{
}

// ------------------------------------------------------------------------ runs

/// The parts of a second that a runtime counts in.
proof fn lemma_parts_of_a_second()
    ensures
        ordinary(Double { bits: BILLION_BITS }, 100),
        (Double { bits: BILLION_BITS }).units() == 1_000_000_000 * one(),
        ordinary(Double { bits: THOUSAND_BITS }, 100),
        (Double { bits: THOUSAND_BITS }).units() == 1000 * one(),
{
    let k = Double { bits: THOUSAND_BITS };
    lemma_nothing();
    lemma_powers_of_two();
    assert(k.significand() == 0x1F_4000_0000_0000 && k.exponent() == -43);
    lemma_exactly(k, 0x1F_4000_0000_0000, 43, 1000);
    lemma_between(k, 0x408, 100);
    crate::double::lemma_pow2_grows(974, 1044);
    crate::double::lemma_pow2_grows(1104, 1174);
}

/// So many in a time that is told in parts of a second.
pub open spec fn is_rate_of(rate: Double, count: Double, time: Double, parts: nat) -> bool {
    near(rate.units() * time.units(), count.units() * (parts * one()), 3)
}

/// The number at a key is of ordinary size.
pub open spec fn tells(s: Seq<char>, key: Seq<char>, d: Double) -> bool {
    number_at(s, key) == Some(d) && ordinary(d, 100)
}

/// A generation's rates are its tokens by their own times, in billionths of a
/// second: those of the prompt by the prompt's, and those generated by theirs.
pub proof fn a_generation_is_timed_in_billionths(r: RunStats, model: Seq<char>, s: Seq<char>, p: Double, pt: Double, e: Double, et: Double)
    requires
        generated(r, model, s),
        tells(s, "prompt_eval_count"@, p) && tells(s, "prompt_eval_duration"@, pt),
        tells(s, "eval_count"@, e) && tells(s, "eval_duration"@, et),
    ensures
        is_rate_of(r.prefill_tok_s, p, pt, 1_000_000_000),
        is_rate_of(r.decode_tok_s, e, et, 1_000_000_000),
        r.model@ == model,
        p.to_count() <= u32::MAX ==> r.prompt_tokens == p.to_count(),
        e.to_count() <= u32::MAX ==> r.eval_tokens == e.to_count(),
{
    lemma_parts_of_a_second();
    a_rate_is_a_count_by_a_time(p, pt, Double { bits: BILLION_BITS });
    a_rate_is_a_count_by_a_time(e, et, Double { bits: BILLION_BITS });
}

/// A completion's are in thousandths, and it ran at the context that the server
/// was launched with.
pub proof fn a_completion_is_timed_in_thousandths(
    r: RunStats,
    model: Seq<char>,
    n_ctx: Option<u32>,
    body: Seq<char>,
    p: Double,
    pt: Double,
    e: Double,
    et: Double,
)
    requires
        llamacpp::completed(r, model, n_ctx, body),
        tells(timings_in(body), "prompt_n"@, p) && tells(timings_in(body), "prompt_ms"@, pt),
        tells(timings_in(body), "predicted_n"@, e) && tells(timings_in(body), "predicted_ms"@, et),
    ensures
        is_rate_of(r.prefill_tok_s, p, pt, 1000),
        is_rate_of(r.decode_tok_s, e, et, 1000),
        r.n_ctx == n_ctx,
        r.model@ == model,
{
    lemma_parts_of_a_second();
    a_rate_is_a_count_by_a_time(p, pt, Double { bits: THOUSAND_BITS });
    a_rate_is_a_count_by_a_time(e, et, Double { bits: THOUSAND_BITS });
}

/// A completion that states its own rate is taken at its word, and its prompt
/// was processed in the wait for the first token.
pub proof fn a_stated_rate_is_taken_at_its_word(r: RunStats, model: Seq<char>, body: Seq<char>, rate: Double, p: Double, wait: Double)
    requires
        lmstudio::completed(r, model, body),
        tells(part_of(body, "stats"@), "tokens_per_second"@, rate),
        tells(part_of(body, "usage"@), "prompt_tokens"@, p),
        tells(part_of(body, "stats"@), "time_to_first_token"@, wait),
    ensures
        r.decode_tok_s == rate,
        near(r.prefill_tok_s.units() * wait.units(), p.units() * one(), 1),
        r.model@ == model,
{
    lemma_nothing();
    lemma_positive(wait, 100);
    quotients_are_near(p, wait, 100, 100);
}

/// A context that a server states is the one it was launched with; none is made
/// of zero.
pub proof fn a_launched_context_says_something(props: Seq<char>)
    ensures
        launched_ctx(props) matches Some(n) ==> n > 0 && n <= u32::MAX,
{
}

// --------------------------------------------------------------------- listings

/// A listed model is named by its id and has the size, the parameters, the
/// width and the vocabulary that its entry states, and none that it does not.
pub proof fn a_listed_model_is_what_its_entry_states(obj: Seq<char>, m: InstalledView)
    requires
        openai::listed_model(obj) == Some(m),
    ensures
        string_at(obj, "id"@) == Some(m.name),
        whole_at(obj, "size"@, u64::MAX as nat) matches Some(n) ==> m.size_bytes == n,
        whole_at(obj, "size"@, u64::MAX as nat) is None ==> m.size_bytes == 0,
        match m.params {
            Some(p) => whole_at(obj, "n_params"@, u64::MAX as nat) == Some(p as nat),
            None => whole_at(obj, "n_params"@, u64::MAX as nat) is None,
        },
        match m.n_embd {
            Some(p) => whole_at(obj, "n_embd"@, u32::MAX as nat) == Some(p as nat),
            None => whole_at(obj, "n_embd"@, u32::MAX as nat) is None,
        },
        match m.n_vocab {
            Some(p) => whole_at(obj, "n_vocab"@, u32::MAX as nat) == Some(p as nat),
            None => whole_at(obj, "n_vocab"@, u32::MAX as nat) is None,
        },
{
}

/// A model that cannot generate is not listed, whatever else it states.
pub proof fn what_cannot_generate_is_not_listed(obj: Seq<char>)
    ensures
        lmstudio::listed_model(obj) is Some <==> string_at(obj, "id"@) is Some && (string_at(obj, "type"@) matches Some(t) ==> t == "llm"@ || t
            == "vlm"@),
        lmstudio::listed_model(obj) matches Some(m) ==> string_at(obj, "id"@) == Some(m.name) && (string_at(obj, "quantization"@) matches Some(q)
            ==> m.quant == q),
{
}

/// The label is taken from the last token that starts one.
pub proof fn the_last_label_counts(upper: Seq<Seq<char>>)
    ensures
        match label_head(upper) {
            Some(h) => exists|k: int| 0 <= k < upper.len() && #[trigger] upper[k] == h && starts_label(h) && forall|j: int|
                k < j < upper.len() ==> !starts_label(#[trigger] upper[j]),
            None => forall|j: int| 0 <= j < upper.len() ==> !starts_label(#[trigger] upper[j]),
        },
    decreases upper.len(),
{
    if upper.len() > 0 {
        let r = upper.drop_last();
        let n = upper.len() - 1;
        if starts_label(upper.last()) {
            assert(upper[n] == upper.last());
        } else {
            the_last_label_counts(r);
            if let Some(h) = label_head(r) {
                let k = choose|k: int| 0 <= k < r.len() && #[trigger] r[k] == h && starts_label(h) && forall|j: int|
                    k < j < r.len() ==> !starts_label(#[trigger] r[j]);
                assert(upper[k] == h);
                assert forall|j: int| k < j < upper.len() implies !starts_label(#[trigger] upper[j]) by {
                    if j < n {
                        assert(!starts_label(r[j]));
                    }
                }
            } else {
                assert forall|j: int| 0 <= j < upper.len() implies !starts_label(#[trigger] upper[j]) by {
                    if j < n {
                        assert(!starts_label(r[j]));
                    }
                }
            }
        }
    }
}

/// A place is asked exactly where no other runtime has claimed it.
pub proof fn a_claimed_place_is_left_alone(p: Seq<(EndpointView, Seq<char>)>, claimed: Seq<EndpointView>, x: (EndpointView, Seq<char>))
    ensures
        unclaimed(p, claimed).contains(x) <==> p.contains(x) && !claimed.contains(x.0),
    decreases p.len(),
{
    if p.len() > 0 {
        let r = p.drop_last();
        let (a, b) = (unclaimed(r, claimed), unclaimed(p, claimed));
        a_claimed_place_is_left_alone(r, claimed, x);
        if a.contains(x) {
            let k = choose|k: int| 0 <= k < a.len() && a[k] == x;
            assert(b[k] == x);
        }
        if r.contains(x) {
            let k = choose|k: int| 0 <= k < r.len() && r[k] == x;
            assert(p[k] == x);
        }
        if b.contains(x) && !a.contains(x) {
            let k = choose|k: int| 0 <= k < b.len() && b[k] == x;
            if k < a.len() {
                assert(a[k] == x);
            }
            assert(p[p.len() - 1] == x);
        }
        if p.contains(x) && !r.contains(x) {
            let k = choose|k: int| 0 <= k < p.len() && p[k] == x;
            if k < r.len() {
                assert(r[k] == x);
            }
            if !claimed.contains(x.0) {
                assert(b[a.len() as int] == x);
            }
        }
    }
}

} // verus!
