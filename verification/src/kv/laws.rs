//! What a cache costs, kind by kind.

use vstd::prelude::*;
use crate::double::arith::distance;
use crate::kv::{
    a_full_cache_is_counted_exactly, a_hybrid_cache_is_counted_exactly, a_latent_cache_is_counted_exactly,
    a_windowed_cache_is_counted_exactly, full_elements, windowed_tokens, KvPrecision,
};
use crate::predict::{Hardware, MemoryPlan};
use crate::spec::{Attention, ModelView};

verus! {

/// The bytes of 32 numbers: two each, or one each and a scale, or half of one
/// each and a scale; a scale is two bytes.
pub open spec fn bytes_of_32(prec: KvPrecision) -> nat {
    match prec {
        KvPrecision::F16 => 32 * 2,
        KvPrecision::Q8 => 32 + 2,
        KvPrecision::Q4 => 16 + 2,
    }
}

/// `bytes` is what so many numbers take, cut to whole bytes.
pub open spec fn hold(bytes: nat, numbers: nat, prec: KvPrecision) -> bool {
    32 * bytes <= numbers * bytes_of_32(prec) < 32 * bytes + 32
}

/// A model of full attention keeps a key and a value: for every layer, head and
/// token, as many numbers as a head is wide, twice.
pub proof fn keys_and_values_are_kept(m: ModelView, heads: u32, width: u32, ctx: nat, prec: KvPrecision)
    requires
        m.attention == (Attention::Gqa { n_kv_heads: heads, head_dim: width }),
        m.n_layers <= u32::MAX && ctx <= u32::MAX,
        2 * m.n_layers * heads as nat * width as nat * ctx * bytes_of_32(prec) < 0x20_0000_0000_0000,
    ensures
        hold(m.kv_bytes(ctx, prec), 2 * m.n_layers * heads as nat * width as nat * ctx, prec),
{
    a_full_cache_is_counted_exactly(m, heads, width, ctx, prec);
    assert(full_elements(m.n_layers, heads as nat, width as nat, ctx) == 2 * m.n_layers * heads as nat * width as nat * ctx);
}

/// A model of latent attention keeps one latent for every layer and token, not
/// a key and a value.
pub proof fn one_latent_is_kept(m: ModelView, rank: u32, rope: u32, ctx: nat, prec: KvPrecision)
    requires
        m.attention == (Attention::Mla { kv_lora_rank: rank, rope_head_dim: rope }),
        m.n_layers <= u32::MAX && ctx <= u32::MAX,
        m.n_layers * (rank + rope) as nat * ctx * bytes_of_32(prec) < 0x20_0000_0000_0000,
    ensures
        hold(m.kv_bytes(ctx, prec), m.n_layers * (rank + rope) as nat * ctx, prec),
{
    a_latent_cache_is_counted_exactly(m, rank, rope, ctx, prec);
}

/// `g` of the layers see the whole context: one of every so many.
pub open spec fn see_everything(g: nat, layers: nat, every: nat) -> bool {
    g * every <= layers < (g + 1) * every
}

/// A model with a sliding window keeps the whole context in one layer of every
/// so many, and the window, or less where there is less, in the others.
pub proof fn the_other_layers_keep_the_window(
    m: ModelView,
    heads: u32,
    width: u32,
    window: u32,
    every: u32,
    ctx: nat,
    prec: KvPrecision,
    g: nat,
    near: nat,
)
    requires
        m.attention == (Attention::Swa { n_kv_heads: heads, head_dim: width, window, global_every: every }),
        m.n_layers <= u32::MAX && ctx <= u32::MAX,
        every > 0,
        see_everything(g, m.n_layers, every as nat),
        g <= m.n_layers,
        near <= ctx && near <= window && (near == ctx || near == window),
        2 * heads as nat * width as nat * bytes_of_32(prec) * (g * ctx + (m.n_layers - g) * near) < 0x20_0000_0000_0000,
    ensures
        hold(m.kv_bytes(ctx, prec), 2 * heads as nat * width as nat * (g * ctx + (m.n_layers - g) * near) as nat, prec),
{
    let (l, e) = (m.n_layers as int, every as int);
    assert(g == l / e) by {
        assert(g * e <= l < (g + 1) * e);
        assert((g + 1) * e == g * e + e) by (nonlinear_arith);
        let r = l - g * e;
        assert(l == g * e + r && 0 <= r < e);
        vstd::arithmetic::div_mod::lemma_fundamental_div_mod_converse(l, e, g as int, r);
    }
    let k = windowed_tokens(m.n_layers, m.global_layers(every as nat), ctx, window as nat);
    assert((m.n_layers - g) * near >= 0 && g * ctx >= 0) by (nonlinear_arith)
        requires
            g <= m.n_layers,
    ;
    assert(k == (g * ctx + (m.n_layers - g) * near) as nat);
    a_windowed_cache_is_counted_exactly(m, heads, width, window, every, ctx, prec);
    let (h, b) = (2 * heads as nat * width as nat, bytes_of_32(prec));
    assert(h * b * k == h * k * b) by (nonlinear_arith);
}

/// A hybrid keeps keys and values in its attention layers alone, and a state
/// that does not grow in each of the others.
pub proof fn a_state_does_not_grow(
    m: ModelView,
    layers: u32,
    heads: u32,
    width: u32,
    state: u64,
    ctx: nat,
    prec: KvPrecision,
    states: nat,
)
    requires
        m.attention == (Attention::Hybrid { attn_layers: layers, n_kv_heads: heads, head_dim: width, ssm_state_bytes: state }),
        layers <= m.n_layers <= u32::MAX && ctx <= u32::MAX,
        states == (m.n_layers - layers) * state,
        2 * layers as nat * heads as nat * width as nat * ctx * bytes_of_32(prec) + 32 * states < 0x20_0000_0000_0000,
    ensures
        m.kv_bytes(ctx, prec) >= states,
        hold((m.kv_bytes(ctx, prec) - states) as nat, 2 * layers as nat * heads as nat * width as nat * ctx, prec),
{
    let n = 2 * layers as nat * heads as nat * width as nat * ctx;
    assert(full_elements(layers as nat, heads as nat, width as nat, ctx) == n);
    assert(distance(m.n_layers - layers) * state as nat == states);
    a_hybrid_cache_is_counted_exactly(m, layers, heads, width, state, ctx, prec);
    assert(n * bytes_of_32(prec) >= 0) by (nonlinear_arith);
}

/// What one more token costs is told as the slope at the context that a plan
/// works at, cut to whole bytes.
pub proof fn a_token_costs_the_slope(p: MemoryPlan, m: ModelView, bytes: nat, hw: Hardware, prec: KvPrecision, ubatch: nat)
    requires
        p.is_for(m, bytes, hw, prec, ubatch),
        m.n_layers <= u32::MAX,
    ensures
        256 * p.kv_bytes_per_token <= m.kv_bytes((p.reserve_ctx + 256) as nat, prec) - m.kv_bytes(p.reserve_ctx as nat, prec) < 256
            * p.kv_bytes_per_token + 256,
{
    crate::kv::kv_bytes_grow_with_context(m, p.reserve_ctx as nat, (p.reserve_ctx + 256) as nat, prec);
}

} // verus!
