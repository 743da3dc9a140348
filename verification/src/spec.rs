//! Model description: the architecture facts that memory and speed follow
//! from. Every field comes from the model's own metadata; none is inferred.

use vstd::prelude::*;
use crate::chars::{begins, contains, mentions, same, starts_with, to_uppercase, uppercase};
use crate::double::laws::{
    a_count_is_within, a_part_is_at_most_the_count, a_quotient_is_within, a_share_is_at_most_the_whole, counts_are_finite,
    counts_keep_order, products_keep_order, quotients_keep_order, small_counts_are_exact, units_follow_magnitudes,
    whole_parts_keep_order,
};
use crate::double::{pow2, Double};

verus! {

/// How the model stores attention state. This determines KV cache size, and
/// the four variants differ by more than an order of magnitude.
#[derive(Debug, Clone, Copy, PartialEq, Eq, Structural)]
pub enum Attention {
    /// Multi-head / grouped-query. Stores a separate K and V per layer, hence
    /// the factor of 2.
    Gqa { n_kv_heads: u32, head_dim: u32 },
    /// Multi-head latent attention. Stores one compressed latent vector per
    /// layer instead of full K and V, so there is no factor of 2.
    Mla { kv_lora_rank: u32, rope_head_dim: u32 },
    /// Sliding-window attention. Local layers keep at most `window` tokens; a
    /// minority of layers are global and grow normally.
    Swa {
        n_kv_heads: u32,
        head_dim: u32,
        window: u32,
        /// Every Nth layer is full-attention.
        global_every: u32,
    },
    /// Hybrid transformer and state-space. SSM layers hold a fixed-size state;
    /// only the attention layers accumulate KV.
    Hybrid {
        attn_layers: u32,
        n_kv_heads: u32,
        head_dim: u32,
        /// Per-layer SSM state, constant regardless of context length.
        ssm_state_bytes: u64,
    },
}

/// Mixture-of-experts geometry. Absent for dense models.
#[derive(Debug, Clone, Copy, PartialEq, Eq, Structural)]
pub struct Moe {
    pub n_expert: u32,
    /// Experts routed to per token, per layer (top-k).
    pub n_active: u32,
    /// Parameters in one routed expert.
    pub expert_params: u64,
    /// Parameters that fire on every token regardless of routing.
    pub shared_params: u64,
}

#[derive(Debug, Clone, Copy, PartialEq, Eq, Structural)]
pub enum QuantFamily {
    /// Q4_0, Q8_0: simplest dequant, fastest per byte.
    Legacy,
    /// Q4_K_M etc.: superblock scales, slightly more dequant work.
    KQuant,
    /// IQ2/IQ3: codebook lookup, noticeably slower per byte on CPU.
    IQuant,
    /// MXFP4 and friends: hardware-friendly block float.
    BlockFloat,
    /// F16 / BF16: no dequant at all.
    Float,
}

/// The family of a quantisation by its upper-case GGUF label.
///
/// Order matters: `IQ4_NL` starts with IQ and must not fall through to the
/// `_K` branch, and `F16` must be caught before the legacy default.
pub open spec fn family_of_label(u: Seq<char>) -> QuantFamily {
    if starts_with(u, "IQ"@) {
        QuantFamily::IQuant
    } else if contains(u, "MXFP"@) || contains(u, "NF4"@) {
        QuantFamily::BlockFloat
    } else if starts_with(u, "F16"@) || starts_with(u, "BF16"@) || starts_with(u, "F32"@) {
        QuantFamily::Float
    } else if contains(u, "_K"@) {
        QuantFamily::KQuant
    } else {
        QuantFamily::Legacy
    }
}

/// The family a catalog tag names; `k_quant` where it names none.
pub open spec fn family_of_tag(s: Seq<char>) -> QuantFamily {
    if s == "legacy"@ {
        QuantFamily::Legacy
    } else if s == "i_quant"@ {
        QuantFamily::IQuant
    } else if s == "block_float"@ {
        QuantFamily::BlockFloat
    } else if s == "float"@ {
        QuantFamily::Float
    } else {
        QuantFamily::KQuant
    }
}

impl QuantFamily {
    pub open spec fn tag_text(self) -> Seq<char> {
        match self {
            QuantFamily::Legacy => "legacy"@,
            QuantFamily::KQuant => "k_quant"@,
            QuantFamily::IQuant => "i_quant"@,
            QuantFamily::BlockFloat => "block_float"@,
            QuantFamily::Float => "float"@,
        }
    }

    /// From a catalog file's `family` tag.
    ///
    /// k_quant is the default because its dequant cost sits between legacy and
    /// i-quant, so a mislabelled entry errs small in both directions.
    pub fn from_data_tag(s: &str) -> (r: QuantFamily)
        ensures
            r == family_of_tag(s@),
    {
        if same(s, "legacy") {
            QuantFamily::Legacy
        } else if same(s, "i_quant") {
            QuantFamily::IQuant
        } else if same(s, "block_float") {
            QuantFamily::BlockFloat
        } else if same(s, "float") {
            QuantFamily::Float
        } else {
            QuantFamily::KQuant
        }
    }

    /// From a GGUF quantisation label as reported by a runtime (`Q4_K_M`,
    /// `IQ3_XXS`, `MXFP4`, ...), in any case.
    pub fn from_gguf_label(label: &str) -> (r: QuantFamily)
        ensures
            r == family_of_label(uppercase(label@)),
    {
        let u = to_uppercase(label);
        QuantFamily::from_upper_label(u.as_str())
    }

    /// From a GGUF quantisation label that is in upper case.
    pub fn from_upper_label(u: &str) -> (r: QuantFamily)
        ensures
            r == family_of_label(u@),
    {
        if begins(u, "IQ") {
            QuantFamily::IQuant
        } else if mentions(u, "MXFP") || mentions(u, "NF4") {
            QuantFamily::BlockFloat
        } else if begins(u, "F16") || begins(u, "BF16") || begins(u, "F32") {
            QuantFamily::Float
        } else if mentions(u, "_K") {
            QuantFamily::KQuant
        } else {
            QuantFamily::Legacy
        }
    }

    /// Stable key for grouping calibration records.
    pub fn tag(self) -> (r: &'static str)
        ensures
            r@ == self.tag_text(),
    {
        match self {
            QuantFamily::Legacy => "legacy",
            QuantFamily::KQuant => "k_quant",
            QuantFamily::IQuant => "i_quant",
            QuantFamily::BlockFloat => "block_float",
            QuantFamily::Float => "float",
        }
    }
}

impl QuantFamily {
    pub open spec fn efficiency_bits(self) -> u64 {
        match self {
            QuantFamily::Float => 0x3FF0_0000_0000_0000,
            QuantFamily::Legacy => 0x3FEE_6666_6666_6666,
            QuantFamily::BlockFloat => 0x3FED_70A3_D70A_3D71,
            QuantFamily::KQuant => 0x3FEC_28F5_C28F_5C29,
            QuantFamily::IQuant => 0x3FE7_0A3D_70A3_D70A,
        }
    }

    /// Relative decode throughput per byte moved, versus f16: 1.00 for float,
    /// 0.95 for legacy, 0.92 for block float, 0.88 for k-quants and 0.72 for
    /// i-quants.
    ///
    /// Dequantisation costs cycles that partly overlap the memory stall, so
    /// these are damping factors, not raw compute ratios. Hand-set priors that
    /// the calibration dataset replaces.
    pub fn efficiency(self) -> (r: Double)
        ensures
            r.bits == self.efficiency_bits(),
    {
        match self {
            QuantFamily::Float => Double { bits: 0x3FF0_0000_0000_0000 },
            QuantFamily::Legacy => Double { bits: 0x3FEE_6666_6666_6666 },
            QuantFamily::BlockFloat => Double { bits: 0x3FED_70A3_D70A_3D71 },
            QuantFamily::KQuant => Double { bits: 0x3FEC_28F5_C28F_5C29 },
            QuantFamily::IQuant => Double { bits: 0x3FE7_0A3D_70A3_D70A },
        }
    }
}

/// A family's tag names that family.
pub proof fn tag_names_its_family(f: QuantFamily)
    ensures
        family_of_tag(f.tag_text()) == f,
{
    reveal_strlit("legacy");
    reveal_strlit("k_quant");
    reveal_strlit("i_quant");
    reveal_strlit("block_float");
    reveal_strlit("float");
    assert("legacy"@.len() == 6 && "block_float"@.len() == 11 && "float"@.len() == 5);
    assert("k_quant"@.len() == 7 && "i_quant"@.len() == 7);
    assert("k_quant"@[0] == 'k' && "i_quant"@[0] == 'i');
}

#[derive(Debug, Clone)]
pub struct Quant {
    pub name: String,
    /// On-disk size of the whole model at this quantisation.
    pub bytes: u64,
    pub family: QuantFamily,
}

/// What a [`Quant`] holds.
pub struct QuantView {
    pub name: Seq<char>,
    pub bytes: nat,
    pub family: QuantFamily,
}

impl View for Quant {
    type V = QuantView;

    open spec fn view(&self) -> QuantView {
        QuantView { name: self.name@, bytes: self.bytes as nat, family: self.family }
    }
}

#[derive(Debug, Clone)]
pub struct ModelSpec {
    pub id: String,
    pub n_layers: u32,
    pub n_embd: u32,
    pub n_vocab: u32,
    /// Total parameter count, dense or MoE.
    pub params: u64,
    pub attention: Attention,
    pub moe: Option<Moe>,
    /// The longest context the model was trained for, where it is stated.
    pub n_ctx_train: Option<u32>,
    pub quants: Vec<Quant>,
}

/// What a [`ModelSpec`] holds.
pub struct ModelView {
    pub id: Seq<char>,
    pub n_layers: nat,
    pub n_embd: nat,
    pub n_vocab: nat,
    pub params: nat,
    pub attention: Attention,
    pub moe: Option<Moe>,
    pub n_ctx_train: Option<u32>,
    pub quants: Seq<QuantView>,
}

pub open spec fn quant_views(v: Seq<Quant>) -> Seq<QuantView> {
    v.map_values(|q: Quant| q@)
}

impl View for ModelSpec {
    type V = ModelView;

    open spec fn view(&self) -> ModelView {
        ModelView {
            id: self.id@,
            n_layers: self.n_layers as nat,
            n_embd: self.n_embd as nat,
            n_vocab: self.n_vocab as nat,
            params: self.params as nat,
            attention: self.attention,
            moe: self.moe,
            n_ctx_train: self.n_ctx_train,
            quants: quant_views(self.quants@),
        }
    }
}

pub open spec fn model_views(v: Seq<ModelSpec>) -> Seq<ModelView> {
    v.map_values(|m: ModelSpec| m@)
}

impl ModelView {
    /// Parameters read per token: all of a dense model, and the shared core
    /// plus `n_active` experts per layer of a mixture of experts.
    pub open spec fn active(self) -> nat {
        match self.moe {
            None => self.params,
            Some(m) => m.shared_params as nat + m.expert_params as nat * m.n_active as nat * self.n_layers,
        }
    }

    /// The share `part` of `params` taken of `bytes`: the fraction, and the
    /// whole part of that much of the file, as doubles compute them.
    pub open spec fn share(self, bytes: nat, part: nat) -> nat {
        Double::count(bytes).product(Double::count(part).quotient(Double::count(self.params))).to_count()
    }

    /// Bytes read per token at a quantisation of `bytes` bytes.
    pub open spec fn active_bytes(self, bytes: nat) -> nat {
        self.share(bytes, self.active())
    }

    /// Bytes that belong pinned in RAM: the shared core of a mixture of
    /// experts, nothing of a dense model.
    pub open spec fn hot_core(self, bytes: nat) -> nat {
        match self.moe {
            None => 0,
            Some(m) => self.share(bytes, m.shared_params as nat),
        }
    }

    /// The counts derived from the architecture fit the machine's integers.
    pub open spec fn countable(self) -> bool {
        self.active() <= u64::MAX && self.kv_countable()
    }

    /// The width of a compressed latent does, too.
    pub open spec fn kv_countable(self) -> bool {
        self.attention matches Attention::Mla { kv_lora_rank, rope_head_dim } ==> kv_lora_rank + rope_head_dim
            <= u32::MAX
    }
}

fn share_of(bytes: u64, part: u64, params: u64) -> (r: u64)
    ensures
        forall|m: ModelView| m.params == params ==> r as nat == #[trigger] m.share(bytes as nat, part as nat),
{
    let fraction = Double::of_count(part).over(Double::of_count(params));
    Double::of_count(bytes).times(fraction).as_count()
}

impl ModelSpec {
    /// Parameters actually read per token.
    pub fn active_params(&self) -> (r: u64)
        requires
            self@.active() <= u64::MAX,
        ensures
            r as nat == self@.active(),
    {
        match &self.moe {
            None => self.params,
            Some(m) => {
                let ghost e = m.expert_params as int;
                let ghost a = m.n_active as int;
                let ghost l = self.n_layers as int;
                if m.n_active == 0 || self.n_layers == 0 {
                    assert(e * a * l == 0) by (nonlinear_arith)
                        requires
                            a == 0 || l == 0,
                    ;
                    return m.shared_params;
                }
                assert(e * a <= e * a * l) by (nonlinear_arith)
                    requires
                        e >= 0,
                        a >= 0,
                        l >= 1,
                ;
                let per_layer: u64 = m.expert_params * m.n_active as u64;
                let routed: u64 = per_layer * self.n_layers as u64;
                m.shared_params + routed
            },
        }
    }

    /// Whether the parameters read per token can be counted.
    pub fn counts_fit(&self) -> (r: bool)
        ensures
            r == (self@.active() <= u64::MAX),
    {
        match &self.moe {
            None => true,
            Some(m) => {
                let ghost e = m.expert_params as int;
                let ghost a = m.n_active as int;
                let ghost l = self.n_layers as int;
                let limit: u128 = u64::MAX as u128;
                assert(0 <= e * a <= u64::MAX * u32::MAX) by (nonlinear_arith)
                    requires
                        0 <= e <= u64::MAX,
                        0 <= a <= u32::MAX,
                ;
                let per_layer: u128 = m.expert_params as u128 * m.n_active as u128;
                assert(0 <= e * a * l <= u64::MAX * u32::MAX * u32::MAX) by (nonlinear_arith)
                    requires
                        0 <= e * a <= u64::MAX * u32::MAX,
                        0 <= l <= u32::MAX,
                ;
                let routed: u128 = per_layer * self.n_layers as u128;
                routed <= limit && m.shared_params as u128 + routed <= limit
            },
        }
    }

    /// Whether the width of a compressed latent can be counted.
    pub fn latent_fits(&self) -> (r: bool)
        ensures
            r == self@.kv_countable(),
    {
        match self.attention {
            Attention::Mla { kv_lora_rank, rope_head_dim } => kv_lora_rank as u64 + rope_head_dim as u64 <= u32::MAX as u64,
            _ => true,
        }
    }

    /// Bytes read per token at a given quantisation.
    ///
    /// Scales the model's on-disk size by the active fraction, which assumes
    /// uniform bits-per-weight across the model.
    pub fn active_bytes(&self, q: &Quant) -> (r: u64)
        requires
            self@.active() <= u64::MAX,
        ensures
            r as nat == self@.active_bytes(q@.bytes),
    {
        share_of(q.bytes, self.active_params(), self.params)
    }

    /// Bytes that should be pinned in RAM and never streamed: for MoE the
    /// shared core, for dense models there is no such split.
    pub fn hot_core_bytes(&self, q: &Quant) -> (r: u64)
        ensures
            r as nat == self@.hot_core(q@.bytes),
    {
        match &self.moe {
            None => 0,
            Some(m) => share_of(q.bytes, m.shared_params, self.params),
        }
    }
}

/// A dense model that states its parameters reads its whole file for every
/// token: as a double counts it, and to the byte up to the size from which on a
/// double no longer counts single bytes.
pub proof fn a_dense_model_reads_everything(m: ModelView, bytes: nat)
    requires
        m.moe is None,
        m.params <= u64::MAX && bytes <= u64::MAX,
        m.params > 0 || bytes == 0,
    ensures
        m.active_bytes(bytes) == Double::count(bytes).to_count(),
        bytes <= 0x20_0000_0000_0000 ==> m.active_bytes(bytes) == bytes,
{
    if m.params == 0 {
        lemma_nothing_stated(m, bytes);
        small_counts_are_exact(0);
        reveal(Double::to_count);
    } else {
        a_share_is_at_most_the_whole(m.params, m.params);
        a_part_is_at_most_the_count(bytes, Double::count(m.params).quotient(Double::count(m.params)));
    }
}

/// Where no parameters are stated and none are active, nothing is read.
proof fn lemma_nothing_stated(m: ModelView, bytes: nat)
    requires
        m.params == 0,
        m.active() == 0,
        bytes <= u64::MAX,
    ensures
        m.active_bytes(bytes) == 0,
{
    small_counts_are_exact(0);
    counts_are_finite(bytes);
    reveal(Double::quotient);
    reveal(Double::product);
    reveal(Double::to_count);
}

/// What is read per token is never more than the file where the active
/// parameters are among the stated ones: than the file as a double counts it,
/// and than its bytes up to the size from which on a double no longer counts
/// single ones.
pub proof fn active_bytes_are_part_of_the_file(m: ModelView, bytes: nat)
    requires
        m.params <= u64::MAX && bytes <= u64::MAX,
        m.active() <= m.params,
    ensures
        m.active_bytes(bytes) <= Double::count(bytes).to_count(),
        bytes <= 0x20_0000_0000_0000 ==> m.active_bytes(bytes) <= bytes,
{
    if m.params == 0 {
        lemma_nothing_stated(m, bytes);
    } else {
        a_share_is_at_most_the_whole(m.active(), m.params);
        a_part_is_at_most_the_count(bytes, Double::count(m.active()).quotient(Double::count(m.params)));
    }
}

proof fn lemma_pow2_64()
    ensures
        pow2(64) == 0x1_0000_0000_0000_0000,
{
    reveal_with_fuel(pow2, 65);
}

/// The core is read for every token: it is never more than what is read.
pub proof fn the_hot_core_is_read_every_time(m: ModelView, bytes: nat)
    requires
        bytes <= u64::MAX,
        m.params <= u64::MAX,
        m.active() <= u64::MAX,
    ensures
        m.hot_core(bytes) <= m.active_bytes(bytes),
{
    if let Some(moe) = m.moe {
        let part = moe.shared_params as nat;
        let all = m.active();
        let routed = moe.expert_params as nat * moe.n_active as nat * m.n_layers;
        assert(routed >= 0) by (nonlinear_arith)
            requires
                routed == moe.expert_params as nat * moe.n_active as nat * m.n_layers,
        ;
        let (a, b, c, f) = (Double::count(part), Double::count(all), Double::count(m.params), Double::count(bytes));
        counts_are_finite(part);
        counts_are_finite(all);
        counts_are_finite(m.params);
        counts_are_finite(bytes);
        counts_keep_order(part, all);
        if m.params == 0 {
            small_counts_are_exact(0);
            reveal(Double::quotient);
            reveal(Double::product);
            reveal(Double::to_count);
            if part == 0 {
                assert(a.zero());
            } else {
                assert(a.quotient(c) == b.quotient(c));
            }
        } else {
            small_counts_are_exact(1);
            counts_keep_order(1, m.params);
            units_follow_magnitudes(Double::count(1), c);
            lemma_pow2_64();
            a_count_is_within(part, 64);
            a_count_is_within(all, 64);
            quotients_keep_order(a, b, c);
            a_quotient_is_within(a, c, 64);
            a_quotient_is_within(b, c, 64);
            products_keep_order(a.quotient(c), b.quotient(c), f);
            whole_parts_keep_order(f.product(a.quotient(c)), f.product(b.quotient(c)));
        }
    }
}

} // verus!
