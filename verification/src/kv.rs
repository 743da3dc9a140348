//! KV cache sizing.
//!
//! The number that ends conversations: the model loads, and the cache runs out
//! at message twelve. A 70B model at 32K context needs about 10 GiB of KV on
//! its own.

pub mod laws;

use vstd::prelude::*;
use crate::chars::{lower, lowered, same};
use crate::double::laws::{
    a_count_is_within, a_double_rounds_to_itself, a_product_is_within, a_sum_is_within, counts_keep_order, products_keep_order,
    nothing_times_anything, short_numbers_are_exact, small_counts_add_exactly, small_counts_are_exact, small_counts_are_overdrawn_exactly, small_counts_are_taken_exactly, small_counts_multiply_exactly, sums_keep_order,
    whole_parts_keep_order, within,
};
use crate::double::arith::{distance, lemma_magnitude_scale};
use crate::double::{lemma_pow2_adds, lemma_pow2_grows, pow2, Double, TWO_BITS};
use crate::spec::{Attention, ModelSpec, ModelView};

verus! {

/// Bits per KV element. Quantising the cache is the highest-leverage setting
/// on a memory-constrained machine: Q8 halves it, Q4 quarters it.
#[derive(Debug, Clone, Copy, PartialEq, Eq, Structural)]
pub enum KvPrecision {
    F16,
    Q8,
    Q4,
}

/// The longest context that is ever considered.
pub const CONTEXT_LIMIT: u32 = 1_048_576;

impl KvPrecision {
    /// What a runtime uses unless told otherwise.
    pub const DEFAULT: KvPrecision = KvPrecision::F16;

    pub open spec fn tag_text(self) -> Seq<char> {
        match self {
            KvPrecision::F16 => "f16"@,
            KvPrecision::Q8 => "q8"@,
            KvPrecision::Q4 => "q4"@,
        }
    }

    /// The precision a command-line value names.
    pub open spec fn named(s: Seq<char>) -> Option<KvPrecision> {
        let l = lower(s);
        if l == "f16"@ || l == "fp16"@ {
            Some(KvPrecision::F16)
        } else if l == "q8"@ || l == "q8_0"@ {
            Some(KvPrecision::Q8)
        } else if l == "q4"@ || l == "q4_0"@ {
            Some(KvPrecision::Q4)
        } else {
            None
        }
    }

    /// Bytes taken by 32 elements, scales included: Q8_0 packs 32 values and
    /// one f16 scale per block, Q4_0 packs 32 values in 16 bytes and a scale.
    pub open spec fn block_bytes(self) -> nat {
        match self {
            KvPrecision::F16 => 64,
            KvPrecision::Q8 => 34,
            KvPrecision::Q4 => 18,
        }
    }

    /// Parse a CLI value. `None` for anything unrecognised, so a typo becomes
    /// an error rather than a silent fallback to a different memory model.
    pub fn parse(s: &str) -> (r: Option<KvPrecision>)
        ensures
            r == KvPrecision::named(s@),
    {
        let l = lowered(s);
        let t = l.as_str();
        if same(t, "f16") || same(t, "fp16") {
            Some(KvPrecision::F16)
        } else if same(t, "q8") || same(t, "q8_0") {
            Some(KvPrecision::Q8)
        } else if same(t, "q4") || same(t, "q4_0") {
            Some(KvPrecision::Q4)
        } else {
            None
        }
    }

    /// Stable tag for reports and records.
    pub fn tag(self) -> (r: &'static str)
        ensures
            r@ == self.tag_text(),
    {
        match self {
            KvPrecision::F16 => "f16",
            KvPrecision::Q8 => "q8",
            KvPrecision::Q4 => "q4",
        }
    }

    pub open spec fn element_bytes(self) -> Double {
        match self {
            KvPrecision::F16 => Double { bits: 0x4000_0000_0000_0000 },
            KvPrecision::Q8 => Double { bits: 0x3FF1_0000_0000_0000 },
            KvPrecision::Q4 => Double { bits: 0x3FE2_0000_0000_0000 },
        }
    }

    /// Bytes per element of the cache, the scale of its block shared out.
    pub fn bytes(self) -> (r: Double)
        ensures
            r == self.element_bytes(),
    {
        match self {
            KvPrecision::F16 => Double::from_bits(0x4000_0000_0000_0000),
            KvPrecision::Q8 => Double::from_bits(0x3FF1_0000_0000_0000),
            KvPrecision::Q4 => Double::from_bits(0x3FE2_0000_0000_0000),
        }
    }
}

proof fn lemma_powers()
    ensures
        pow2(4) == 16,
        pow2(5) == 32,
        pow2(32) == 0x1_0000_0000,
        pow2(33) == 0x2_0000_0000,
        pow2(48) == 0x1_0000_0000_0000,
        pow2(49) == 0x2_0000_0000_0000,
        pow2(52) == 0x10_0000_0000_0000,
        pow2(64) == 0x1_0000_0000_0000_0000,
{
    lemma_pow2_16();
    lemma_pow2_adds(16, 16);
    lemma_pow2_adds(32, 1);
    lemma_pow2_adds(32, 16);
    lemma_pow2_adds(48, 1);
    lemma_pow2_adds(48, 4);
    lemma_pow2_adds(32, 32);
    let y = pow2(32);
    assert(y * y == 0x1_0000_0000_0000_0000) by (nonlinear_arith)
        requires
            y == 0x1_0000_0000,
    ;
}

proof fn lemma_pow2_16()
    ensures
        pow2(1) == 2,
        pow2(4) == 16,
        pow2(5) == 32,
        pow2(16) == 0x1_0000,
{
    reveal_with_fuel(pow2, 17);
}

/// An element is exactly one 32nd of a block.
pub proof fn an_element_is_its_share_of_a_block(p: KvPrecision)
    ensures
        p.element_bytes().units() * 32 == p.block_bytes() * pow2(1074),
{
    lemma_powers();
    lemma_pow2_adds(1070, 4);
    match p {
        KvPrecision::F16 => {
            lemma_pow2_adds(52, 1023);
            lemma_pow2_adds(1070, 5);
        },
        KvPrecision::Q8 => {
            lemma_pow2_adds(48, 1022);
            let y = pow2(1022);
            assert((0x10_0000_0000_0000 + 0x1_0000_0000_0000) * y == 17 * (0x1_0000_0000_0000 * y)) by (nonlinear_arith);
        },
        KvPrecision::Q4 => {
            lemma_pow2_adds(49, 1021);
            let y = pow2(1021);
            assert((0x10_0000_0000_0000 + 0x2_0000_0000_0000) * y == 9 * (0x2_0000_0000_0000 * y)) by (nonlinear_arith);
        },
    }
}

/// A precision's tag is a value that names it.
pub proof fn tag_names_its_precision(p: KvPrecision)
    ensures
        KvPrecision::named(p.tag_text()) == Some(p),
{
    reveal_strlit("f16");
    reveal_strlit("fp16");
    reveal_strlit("q8");
    reveal_strlit("q8_0");
    reveal_strlit("q4");
    reveal_strlit("q4_0");
    assert(lower("f16"@) =~= "f16"@);
    assert(lower("q8"@) =~= "q8"@);
    assert(lower("q4"@) =~= "q4"@);
    assert("q4"@[1] != "q8"@[1]);
}

pub open spec fn least(a: nat, b: nat) -> nat {
    if a <= b {
        a
    } else {
        b
    }
}

impl ModelView {
    /// How many layers of a sliding-window model see the whole context.
    pub open spec fn global_layers(self, every: nat) -> nat {
        self.n_layers / (if every == 0 { 1 } else { every })
    }

    /// What the layers that keep every token need at a context: so many
    /// numbers per layer and token, twice, at the precision's size.
    pub open spec fn full_layers(self, layers: nat, heads: nat, width: nat, ctx: nat, prec: KvPrecision) -> Double {
        (Double { bits: TWO_BITS }).product(Double::count(layers)).product(Double::count(heads)).product(
            Double::count(width),
        ).product(Double::count(ctx)).product(prec.element_bytes())
    }

    /// Tokens kept over all layers of a sliding-window model: `ctx` by each
    /// global layer, at most `window` by each local one.
    pub open spec fn swa_tokens(self, ctx: nat, window: nat, every: nat) -> Double {
        let global = Double::count(self.global_layers(every));
        let local = Double::count(self.n_layers).difference(global);
        global.product(Double::count(ctx)).sum(local.product(Double::count(least(ctx, window))))
    }

    /// Total KV cache bytes at a context length before they are cut to whole
    /// ones. The state of SSM layers does not grow with the context.
    #[verifier::opaque]
    pub open spec fn kv_total(self, ctx: nat, prec: KvPrecision) -> Double {
        match self.attention {
            Attention::Gqa { n_kv_heads, head_dim } => self.full_layers(
                self.n_layers,
                n_kv_heads as nat,
                head_dim as nat,
                ctx,
                prec,
            ),
            Attention::Mla { kv_lora_rank, rope_head_dim } => Double::count(self.n_layers).product(
                Double::count((kv_lora_rank + rope_head_dim) as nat),
            ).product(Double::count(ctx)).product(prec.element_bytes()),
            Attention::Swa { n_kv_heads, head_dim, window, global_every } => (Double { bits: TWO_BITS }).product(
                Double::count(n_kv_heads as nat),
            ).product(Double::count(head_dim as nat)).product(prec.element_bytes()).product(
                self.swa_tokens(ctx, window as nat, global_every as nat),
            ),
            Attention::Hybrid { attn_layers, n_kv_heads, head_dim, ssm_state_bytes } => self.full_layers(
                attn_layers as nat,
                n_kv_heads as nat,
                head_dim as nat,
                ctx,
                prec,
            ).sum(
                Double::count(self.n_layers).difference(Double::count(attn_layers as nat)).product(
                    Double::count(ssm_state_bytes as nat),
                ),
            ),
        }
    }

    /// Total KV cache bytes at a context length, rounded down; nothing where
    /// the layer counts contradict each other, and no more than 64 bits hold.
    pub open spec fn kv_bytes(self, ctx: nat, prec: KvPrecision) -> nat {
        self.kv_total(ctx, prec).to_count()
    }

    /// The compute graph's transient buffers: activations for `ubatch`
    /// positions, one row of logits, and a fixed overhead.
    pub open spec fn buffer_bytes(self, ubatch: nat) -> nat {
        ubatch * self.n_embd * 80 + self.n_vocab * 4 + 67_108_864
    }

    /// `n` is the largest context whose cache fits in `room` bytes.
    pub open spec fn is_max_context(self, n: nat, room: nat, prec: KvPrecision) -> bool {
        &&& n <= CONTEXT_LIMIT
        &&& n > 0 ==> self.kv_bytes(n, prec) <= room
        &&& forall|c: nat| n < c <= CONTEXT_LIMIT ==> #[trigger] self.kv_bytes(c, prec) > room
    }
}

proof fn lemma_global_layers(m: ModelView, every: nat)
    ensures
        m.global_layers(every) <= m.n_layers,
{
    let e: nat = if every == 0 { 1 } else { every };
    vstd::arithmetic::div_mod::lemma_div_nonincreasing(m.n_layers as int, e as int);
}

/// Within 2^i and not negative.
spec fn sized(x: Double, i: nat) -> bool {
    within(x, i) && !x.negative()
}

proof fn lemma_count(n: nat)
    requires
        n <= u32::MAX,
    ensures
        sized(Double::count(n), 32),
{
    lemma_powers();
    a_count_is_within(n, 32);
}

proof fn lemma_times(a: Double, b: Double, i: nat, j: nat)
    requires
        sized(a, i),
        sized(b, j),
        i + j <= 900,
    ensures
        sized(a.product(b), i + j),
{
    a_product_is_within(a, b, i, j);
}

/// An element takes at most two bytes, and two is at most two.
proof fn lemma_element(prec: KvPrecision)
    ensures
        sized(prec.element_bytes(), 1),
        sized(Double { bits: TWO_BITS }, 1),
{
    an_element_is_its_share_of_a_block(prec);
    an_element_is_its_share_of_a_block(KvPrecision::F16);
    assert(pow2(1075) == 2 * pow2(1074));
}

/// More tokens, times the same on both sides, are no less.
proof fn lemma_tokens(k: Double, i: nat, a: nat, b: nat)
    requires
        sized(k, i),
        i <= 200,
        a <= b <= u32::MAX,
    ensures
        sized(k.product(Double::count(a)), i + 32),
        sized(k.product(Double::count(b)), i + 32),
        k.product(Double::count(a)).magnitude() <= k.product(Double::count(b)).magnitude(),
{
    lemma_count(a);
    lemma_count(b);
    counts_keep_order(a, b);
    products_keep_order(Double::count(a), Double::count(b), k);
    lemma_times(k, Double::count(a), i, 32);
    lemma_times(k, Double::count(b), i, 32);
}

/// The same of what is multiplied once more.
proof fn lemma_sized_order(x: Double, y: Double, e: Double, i: nat, j: nat)
    requires
        sized(x, i),
        sized(y, i),
        sized(e, j),
        i + j <= 900,
        x.magnitude() <= y.magnitude(),
    ensures
        sized(x.product(e), i + j),
        sized(y.product(e), i + j),
        e.product(x) == x.product(e),
        e.product(y) == y.product(e),
        x.product(e).magnitude() <= y.product(e).magnitude(),
{
    products_keep_order(x, y, e);
    lemma_times(x, e, i, j);
    lemma_times(y, e, i, j);
}

proof fn lemma_full_layers(m: ModelView, layers: nat, heads: nat, width: nat, a: nat, b: nat, prec: KvPrecision)
    requires
        a <= b <= u32::MAX,
        layers <= u32::MAX,
        heads <= u32::MAX,
        width <= u32::MAX,
    ensures
        sized(m.full_layers(layers, heads, width, a, prec), 130),
        sized(m.full_layers(layers, heads, width, b, prec), 130),
        m.full_layers(layers, heads, width, a, prec).magnitude() <= m.full_layers(layers, heads, width, b, prec).magnitude(),
{
    let two = Double { bits: TWO_BITS };
    lemma_element(prec);
    lemma_count(layers);
    lemma_count(heads);
    lemma_count(width);
    lemma_times(two, Double::count(layers), 1, 32);
    let l = two.product(Double::count(layers));
    lemma_times(l, Double::count(heads), 33, 32);
    let h = l.product(Double::count(heads));
    lemma_times(h, Double::count(width), 65, 32);
    let w = h.product(Double::count(width));
    lemma_tokens(w, 97, a, b);
    lemma_sized_order(w.product(Double::count(a)), w.product(Double::count(b)), prec.element_bytes(), 129, 1);
}

proof fn lemma_swa_tokens(m: ModelView, window: nat, every: nat, a: nat, b: nat)
    requires
        a <= b <= u32::MAX,
        window <= u32::MAX,
        m.n_layers <= u32::MAX,
    ensures
        sized(m.swa_tokens(a, window, every), 65),
        sized(m.swa_tokens(b, window, every), 65),
        m.swa_tokens(a, window, every).magnitude() <= m.swa_tokens(b, window, every).magnitude(),
{
    lemma_global_layers(m, every);
    let g = m.global_layers(every);
    let global = Double::count(g);
    let local = Double::count(m.n_layers).difference(global);
    small_counts_are_taken_exactly(m.n_layers, g);
    lemma_count(g);
    lemma_count((m.n_layers - g) as nat);
    lemma_tokens(global, 32, a, b);
    lemma_tokens(local, 32, least(a, window), least(b, window));
    let (x, y) = (global.product(Double::count(a)), global.product(Double::count(b)));
    let (u, v) = (local.product(Double::count(least(a, window))), local.product(Double::count(least(b, window))));
    a_sum_is_within(x, u, 64);
    a_sum_is_within(y, u, 64);
    a_sum_is_within(y, v, 64);
    sums_keep_order(x, y, u);
    sums_keep_order(u, v, y);
}

/// A longer context never needs a smaller cache.
pub proof fn kv_bytes_grow_with_context(m: ModelView, a: nat, b: nat, prec: KvPrecision)
    requires
        a <= b <= u32::MAX,
        m.n_layers <= u32::MAX,
    ensures
        m.kv_bytes(a, prec) <= m.kv_bytes(b, prec),
{
    reveal(ModelView::kv_total);
    lemma_powers();
    match m.attention {
        Attention::Gqa { n_kv_heads, head_dim } => {
            lemma_full_layers(m, m.n_layers, n_kv_heads as nat, head_dim as nat, a, b, prec);
        },
        Attention::Mla { kv_lora_rank, rope_head_dim } => {
            let l = Double::count(m.n_layers);
            let width = Double::count((kv_lora_rank + rope_head_dim) as nat);
            lemma_element(prec);
            lemma_count(m.n_layers);
            a_count_is_within((kv_lora_rank + rope_head_dim) as nat, 33);
            lemma_times(l, width, 32, 33);
            let w = l.product(width);
            lemma_tokens(w, 65, a, b);
            lemma_sized_order(w.product(Double::count(a)), w.product(Double::count(b)), prec.element_bytes(), 97, 1);
        },
        Attention::Swa { n_kv_heads, head_dim, window, global_every } => {
            let two = Double { bits: TWO_BITS };
            lemma_element(prec);
            lemma_count(n_kv_heads as nat);
            lemma_count(head_dim as nat);
            lemma_times(two, Double::count(n_kv_heads as nat), 1, 32);
            let h = two.product(Double::count(n_kv_heads as nat));
            lemma_times(h, Double::count(head_dim as nat), 33, 32);
            let w = h.product(Double::count(head_dim as nat));
            lemma_times(w, prec.element_bytes(), 65, 1);
            let e = w.product(prec.element_bytes());
            lemma_swa_tokens(m, window as nat, global_every as nat, a, b);
            lemma_sized_order(
                m.swa_tokens(a, window as nat, global_every as nat),
                m.swa_tokens(b, window as nat, global_every as nat),
                e,
                65,
                66,
            );
        },
        Attention::Hybrid { attn_layers, n_kv_heads, head_dim, ssm_state_bytes } => {
            lemma_full_layers(m, attn_layers as nat, n_kv_heads as nat, head_dim as nat, a, b, prec);
            lemma_count(m.n_layers);
            lemma_count(attn_layers as nat);
            let o = Double::count(attn_layers as nat).opposite();
            assert(within(o, 32));
            a_sum_is_within(Double::count(m.n_layers), o, 32);
            a_count_is_within(ssm_state_bytes as nat, 64);
            let layers = Double::count(m.n_layers).difference(Double::count(attn_layers as nat));
            a_product_is_within(layers, Double::count(ssm_state_bytes as nat), 33, 64);
            sums_keep_order(
                m.full_layers(attn_layers as nat, n_kv_heads as nat, head_dim as nat, a, prec),
                m.full_layers(attn_layers as nat, n_kv_heads as nat, head_dim as nat, b, prec),
                layers.product(Double::count(ssm_state_bytes as nat)),
            );
        },
    }
    whole_parts_keep_order(m.kv_total(a, prec), m.kv_total(b, prec));
}

/// A 32nd of a byte, in the smallest doubles.
spec fn thirty_second() -> nat {
    pow2(1069)
}

/// So many 32nds of a byte are so many whole bytes.
proof fn lemma_whole_bytes(x: Double, m: nat)
    requires
        x.finite(),
        !x.negative(),
        m < 0x20_0000_0000_0000,
        x.units() == m * thirty_second(),
    ensures
        x.to_count() == m / 32,
{
    reveal(Double::to_count);
    lemma_powers();
    lemma_pow2_adds(5, 1069);
    lemma_pow2_grows(0, 1069);
    let h = pow2(1069);
    assert((m * h) / pow2(1074) == m / 32) by {
        vstd::arithmetic::div_mod::lemma_div_denominator((m * h) as int, h as int, 32);
        vstd::arithmetic::div_mod::lemma_div_by_multiple(m as int, h as int);
        assert(h * 32 == pow2(1074));
    }
}

/// So many elements at a precision, in 32nds of a byte.
proof fn lemma_elements(n: nat, prec: KvPrecision)
    requires
        0 < n,
        n * prec.block_bytes() < 0x20_0000_0000_0000,
    ensures
        Double::count(n).product(prec.element_bytes()).units() == n * prec.block_bytes() * thirty_second(),
        Double::count(n).product(prec.element_bytes()).finite(),
        !Double::count(n).product(prec.element_bytes()).negative(),
{
    let e = prec.element_bytes();
    let b = prec.block_bytes();
    let t = pow2(1074);
    let m = n * b;
    lemma_element(prec);
    an_element_is_its_share_of_a_block(prec);
    assert(n <= n * b && m > 0) by (nonlinear_arith)
        requires
            b >= 1,
            n >= 1,
            m == n * b,
    ;
    small_counts_are_exact(n);
    lemma_powers();
    lemma_pow2_adds(5, 1069);
    lemma_pow2_grows(0, 1069);
    let h = pow2(1069);
    let eu = e.units();
    assert(eu == b * h) by (nonlinear_arith)
        requires
            eu * 32 == b * t,
            t == 32 * h,
    ;
    assert((n * t) * eu == (m * h) * t) by (nonlinear_arith)
        requires
            eu == b * h,
            m == n * b,
    ;
    assert(1 * t == t);
    lemma_magnitude_scale(m * h, 1, t);
    short_numbers_are_exact(m, 1069);
    reveal(Double::product);
}

/// So many 32nds of a byte, so many times.
proof fn lemma_times_count(x: Double, m: nat, k: nat)
    requires
        x.finite(),
        !x.negative(),
        x.units() == m * thirty_second(),
        m > 0,
        k > 0,
        m * k < 0x20_0000_0000_0000,
    ensures
        x.product(Double::count(k)).units() == m * k * thirty_second(),
        x.product(Double::count(k)).finite(),
        !x.product(Double::count(k)).negative(),
{
    assert(k <= m * k && m * k > 0) by (nonlinear_arith)
        requires
            m >= 1,
            k >= 1,
    ;
    small_counts_are_exact(k);
    let (t, h) = (pow2(1074), pow2(1069));
    lemma_pow2_grows(0, 1074);
    assert((m * h) * (k * t) == (m * k * h) * t) by (nonlinear_arith);
    assert(1 * t == t);
    lemma_magnitude_scale(m * k * h, 1, t);
    short_numbers_are_exact(m * k, 1069);
    reveal(Double::product);
}

/// So many 32nds of a byte and so many whole bytes.
proof fn lemma_plus_bytes(x: Double, m: nat, c: nat)
    requires
        x.finite(),
        !x.negative(),
        x.units() == m * thirty_second(),
        m + 32 * c < 0x20_0000_0000_0000,
    ensures
        x.sum(Double::count(c)).to_count() == (m + 32 * c) / 32,
{
    small_counts_are_exact(c);
    lemma_powers();
    lemma_pow2_adds(5, 1069);
    lemma_pow2_grows(0, 1069);
    let (t, h) = (pow2(1074), pow2(1069));
    let n = m + 32 * c;
    assert(m * h + c * t == n * h) by (nonlinear_arith)
        requires
            t == 32 * h,
            n == m + 32 * c,
    ;
    let y = x.sum(Double::count(c));
    if n > 0 {
        assert(n * h > 0) by (nonlinear_arith)
            requires
                n > 0,
                h >= 1,
        ;
        short_numbers_are_exact(n, 1069);
        assert(y.units() == n * h && y.finite() && !y.negative()) by {
            reveal(Double::sum);
        }
    } else {
        assert(0 * h == 0) by (nonlinear_arith);
        small_counts_are_exact(0);
        assert(y == (Double { bits: 0 })) by {
            reveal(Double::sum);
        }
        lemma_nothing_has_no_units();
    }
    lemma_whole_bytes(y, n);
}

proof fn lemma_nothing_has_no_units()
    ensures
        (Double { bits: 0 }).units() == 0,
        (Double { bits: 0 }).finite(),
        !(Double { bits: 0 }).negative(),
        Double::count(0) == (Double { bits: 0 }),
{
    small_counts_are_exact(0);
    assert(0 * pow2(1074) == 0) by (nonlinear_arith);
}

/// So many 32nds of a byte less so many whole bytes.
proof fn lemma_minus_bytes(x: Double, m: nat, c: nat)
    requires
        x.finite(),
        !x.negative(),
        x.units() == m * thirty_second(),
        m < 0x20_0000_0000_0000,
        32 * c < 0x20_0000_0000_0000,
    ensures
        x.sum(Double::count(c).opposite()).to_count() == (if m >= 32 * c {
            (m - 32 * c) / 32
        } else {
            0
        }),
{
    small_counts_are_exact(c);
    lemma_powers();
    lemma_pow2_adds(5, 1069);
    lemma_pow2_grows(0, 1069);
    let (t, h) = (pow2(1074), pow2(1069));
    let d = Double::count(c);
    let o = d.opposite();
    assert(o.magnitude() == d.magnitude() && o.negative() && o.units() == d.units());
    let n = m - 32 * c;
    assert(m * h - c * t == n * h) by (nonlinear_arith)
        requires
            t == 32 * h,
            n == m - 32 * c,
    ;
    let y = x.sum(o);
    if n > 0 {
        assert(n * h > 0) by (nonlinear_arith)
            requires
                n > 0,
                h >= 1,
        ;
        short_numbers_are_exact(n as nat, 1069);
        assert(y.units() == n * h && y.finite() && !y.negative()) by {
            reveal(Double::sum);
        }
        lemma_whole_bytes(y, n as nat);
    } else if n == 0 {
        assert(0 * h == 0) by (nonlinear_arith);
        assert(y == (Double { bits: 0 })) by {
            reveal(Double::sum);
        }
        lemma_nothing_has_no_units();
        lemma_whole_bytes(y, 0);
    } else {
        assert(n * h < 0) by (nonlinear_arith)
            requires
                n < 0,
                h >= 1,
        ;
        assert(y.to_count() == 0) by {
            reveal(Double::sum);
            reveal(Double::to_count);
        }
    }
}

/// One factor more. Nothing stays nothing, and so does what is multiplied by
/// nothing.
proof fn lemma_factor(x: Double, i: nat, n: nat, j: nat)
    requires
        sized(x, i),
        sized(Double::count(n), j),
        i + j <= 900,
    ensures
        sized(x.product(Double::count(n)), i + j),
        x == (Double { bits: 0 }) || n == 0 ==> x.product(Double::count(n)) == (Double { bits: 0 }),
{
    lemma_times(x, Double::count(n), i, j);
    lemma_nothing_has_no_units();
    nothing_times_anything(x);
    nothing_times_anything(Double::count(n));
}

/// A few counts multiplied one after the other.
proof fn lemma_chain(a: nat, b: nat)
    requires
        a * b < 0x20_0000_0000_0000,
        a > 0,
        b > 0,
    ensures
        Double::count(a).product(Double::count(b)) == Double::count(a * b),
        a * b > 0,
        a <= a * b,
{
    assert(a <= a * b && b <= a * b && a * b > 0) by (nonlinear_arith)
        requires
            a > 0,
            b > 0,
    ;
    small_counts_multiply_exactly(a, b);
}

/// The elements of layers that keep every token.
pub open spec fn full_elements(layers: nat, heads: nat, width: nat, ctx: nat) -> nat {
    2 * layers * heads * width * ctx
}

proof fn lemma_full_layers_exact(m: ModelView, layers: nat, heads: nat, width: nat, ctx: nat, prec: KvPrecision)
    requires
        layers <= u32::MAX && heads <= u32::MAX && width <= u32::MAX && ctx <= u32::MAX,
        full_elements(layers, heads, width, ctx) * prec.block_bytes() < 0x20_0000_0000_0000,
    ensures
        ({
            let x = m.full_layers(layers, heads, width, ctx, prec);
            &&& x.finite() && !x.negative()
            &&& x.units() == full_elements(layers, heads, width, ctx) * prec.block_bytes() * thirty_second()
        }),
{
    let l = 2 * layers;
    let h = l * heads;
    let w = h * width;
    let n = w * ctx;
    let b = prec.block_bytes();
    lemma_two();
    if layers > 0 && heads > 0 && width > 0 && ctx > 0 {
        assert(n * b >= n >= w >= h >= l && h > 0 && w > 0 && n > 0) by (nonlinear_arith)
            requires
                l > 0,
                h == l * heads,
                w == h * width,
                n == w * ctx,
                heads > 0,
                width > 0,
                ctx > 0,
                b > 0,
        ;
        lemma_chain(2, layers);
        lemma_chain(l, heads);
        lemma_chain(h, width);
        lemma_chain(w, ctx);
        lemma_elements(n, prec);
    } else {
        let two = Double { bits: TWO_BITS };
        lemma_element(prec);
        lemma_count(layers);
        lemma_count(heads);
        lemma_count(width);
        lemma_count(ctx);
        lemma_factor(two, 1, layers, 32);
        let x = two.product(Double::count(layers));
        lemma_factor(x, 33, heads, 32);
        let y = x.product(Double::count(heads));
        lemma_factor(y, 65, width, 32);
        let z = y.product(Double::count(width));
        lemma_factor(z, 97, ctx, 32);
        nothing_times_anything(prec.element_bytes());
        lemma_nothing_has_no_units();
        assert(n == 0) by (nonlinear_arith)
            requires
                layers == 0 || heads == 0 || width == 0 || ctx == 0,
                l == 2 * layers,
                h == l * heads,
                w == h * width,
                n == w * ctx,
        ;
        assert(0 * b == 0 && 0 * thirty_second() == 0) by (nonlinear_arith);
    }
}

/// Where every layer keeps keys and values of every token, a cache that is
/// not beyond all measure is its elements times their size, to the byte.
pub proof fn a_full_cache_is_counted_exactly(m: ModelView, heads: u32, width: u32, ctx: nat, prec: KvPrecision)
    requires
        m.attention == (Attention::Gqa { n_kv_heads: heads, head_dim: width }),
        m.n_layers <= u32::MAX && ctx <= u32::MAX,
        full_elements(m.n_layers, heads as nat, width as nat, ctx) * prec.block_bytes() < 0x20_0000_0000_0000,
    ensures
        m.kv_bytes(ctx, prec) == full_elements(m.n_layers, heads as nat, width as nat, ctx) * prec.block_bytes() / 32,
{
    reveal(ModelView::kv_total);
    lemma_full_layers_exact(m, m.n_layers, heads as nat, width as nat, ctx, prec);
    lemma_whole_bytes(
        m.full_layers(m.n_layers, heads as nat, width as nat, ctx, prec),
        full_elements(m.n_layers, heads as nat, width as nat, ctx) * prec.block_bytes(),
    );
}

/// So is one of compressed latents.
pub proof fn a_latent_cache_is_counted_exactly(m: ModelView, rank: u32, rope: u32, ctx: nat, prec: KvPrecision)
    requires
        m.attention == (Attention::Mla { kv_lora_rank: rank, rope_head_dim: rope }),
        m.n_layers <= u32::MAX && ctx <= u32::MAX,
        m.n_layers * (rank + rope) as nat * ctx * prec.block_bytes() < 0x20_0000_0000_0000,
    ensures
        m.kv_bytes(ctx, prec) == m.n_layers * (rank + rope) as nat * ctx * prec.block_bytes() / 32,
{
    reveal(ModelView::kv_total);
    let width = (rank + rope) as nat;
    let w = m.n_layers * width;
    let n = w * ctx;
    let b = prec.block_bytes();
    if m.n_layers > 0 && width > 0 && ctx > 0 {
        assert(n * b >= n >= w >= m.n_layers && w > 0 && n > 0) by (nonlinear_arith)
            requires
                m.n_layers > 0,
                w == m.n_layers * width,
                n == w * ctx,
                width > 0,
                ctx > 0,
                b > 0,
        ;
        lemma_chain(m.n_layers, width);
        lemma_chain(w, ctx);
        lemma_elements(n, prec);
        lemma_whole_bytes(Double::count(n).product(prec.element_bytes()), n * b);
    } else {
        let x = Double::count(m.n_layers);
        lemma_element(prec);
        lemma_count(m.n_layers);
        lemma_count(ctx);
        lemma_powers();
        a_count_is_within(width, 33);
        lemma_nothing_has_no_units();
        lemma_factor(x, 32, width, 33);
        lemma_factor(x.product(Double::count(width)), 65, ctx, 32);
        nothing_times_anything(prec.element_bytes());
        assert(n * b == 0) by (nonlinear_arith)
            requires
                m.n_layers == 0 || width == 0 || ctx == 0,
                w == m.n_layers * width,
                n == w * ctx,
        ;
        assert(0 * thirty_second() == 0) by (nonlinear_arith);
        lemma_whole_bytes(Double { bits: 0 }, 0);
    }
}

/// The tokens that a sliding-window model keeps over all its layers.
pub open spec fn windowed_tokens(layers: nat, global: nat, ctx: nat, window: nat) -> nat {
    (global * ctx + (layers - global) * least(ctx, window)) as nat
}

proof fn lemma_swa_tokens_exact(m: ModelView, window: nat, every: nat, ctx: nat)
    requires
        m.n_layers < 0x20_0000_0000_0000,
        ctx < 0x20_0000_0000_0000,
        windowed_tokens(m.n_layers, m.global_layers(every), ctx, window) < 0x20_0000_0000_0000,
    ensures
        m.swa_tokens(ctx, window, every) == Double::count(windowed_tokens(m.n_layers, m.global_layers(every), ctx, window)),
{
    lemma_global_layers(m, every);
    let g = m.global_layers(every);
    let l = (m.n_layers - g) as nat;
    let near = least(ctx, window);
    assert(g * ctx >= 0 && l * near >= 0) by (nonlinear_arith);
    small_counts_are_taken_exactly(m.n_layers, g);
    small_counts_multiply_exactly(g, ctx);
    small_counts_multiply_exactly(l, near);
    small_counts_add_exactly(g * ctx, l * near);
}

/// So is one whose local layers keep a window.
pub proof fn a_windowed_cache_is_counted_exactly(
    m: ModelView,
    heads: u32,
    width: u32,
    window: u32,
    every: u32,
    ctx: nat,
    prec: KvPrecision,
)
    requires
        m.attention == (Attention::Swa { n_kv_heads: heads, head_dim: width, window, global_every: every }),
        m.n_layers <= u32::MAX && ctx <= u32::MAX,
        2 * heads as nat * width as nat * prec.block_bytes() * windowed_tokens(
            m.n_layers,
            m.global_layers(every as nat),
            ctx,
            window as nat,
        ) < 0x20_0000_0000_0000,
    ensures
        m.kv_bytes(ctx, prec) == 2 * heads as nat * width as nat * prec.block_bytes() * windowed_tokens(
            m.n_layers,
            m.global_layers(every as nat),
            ctx,
            window as nat,
        ) / 32,
{
    reveal(ModelView::kv_total);
    let k = windowed_tokens(m.n_layers, m.global_layers(every as nat), ctx, window as nat);
    let b = prec.block_bytes();
    let h = 2 * heads as nat;
    let w = h * width as nat;
    let x = w * b;
    lemma_two();
    if heads > 0 && width > 0 && k > 0 {
        assert(x * k >= x >= w >= h && x * k >= k && w > 0 && x > 0) by (nonlinear_arith)
            requires
                h > 0,
                w == h * width as nat,
                width > 0,
                x == w * b,
                b > 0,
                k > 0,
        ;
        lemma_swa_tokens_exact(m, window as nat, every as nat, ctx);
        lemma_chain(2, heads as nat);
        lemma_chain(h, width as nat);
        lemma_elements(w, prec);
        let e = Double::count(w).product(prec.element_bytes());
        lemma_times_count(e, x, k);
        lemma_whole_bytes(e.product(Double::count(k)), x * k);
    } else {
        lemma_windowed_nothing(m, heads, width, window, every, ctx, prec);
        assert(x * k == 0) by (nonlinear_arith)
            requires
                heads == 0 || width == 0 || k == 0,
                h == 2 * heads as nat,
                w == h * width as nat,
                x == w * b,
        ;
        assert(0 * thirty_second() == 0) by (nonlinear_arith);
        lemma_nothing_has_no_units();
        lemma_whole_bytes(Double { bits: 0 }, 0);
    }
}

proof fn lemma_windowed_nothing(m: ModelView, heads: u32, width: u32, window: u32, every: u32, ctx: nat, prec: KvPrecision)
    requires
        m.attention == (Attention::Swa { n_kv_heads: heads, head_dim: width, window, global_every: every }),
        m.n_layers <= u32::MAX && ctx <= u32::MAX,
        heads == 0 || width == 0 || windowed_tokens(m.n_layers, m.global_layers(every as nat), ctx, window as nat) == 0,
    ensures
        m.kv_total(ctx, prec) == (Double { bits: 0 }),
{
    reveal(ModelView::kv_total);
    let two = Double { bits: TWO_BITS };
    let e = prec.element_bytes();
    let tokens = m.swa_tokens(ctx, window as nat, every as nat);
    lemma_element(prec);
    lemma_count(heads as nat);
    lemma_count(width as nat);
    lemma_factor(two, 1, heads as nat, 32);
    let x = two.product(Double::count(heads as nat));
    lemma_factor(x, 33, width as nat, 32);
    let y = x.product(Double::count(width as nat));
    lemma_times(y, e, 65, 1);
    let z = y.product(e);
    nothing_times_anything(e);
    lemma_swa_tokens(m, window as nat, every as nat, ctx, ctx);
    lemma_nothing_has_no_units();
    if heads == 0 || width == 0 {
        nothing_times_anything(tokens);
    } else {
        lemma_swa_tokens_exact(m, window as nat, every as nat, ctx);
        nothing_times_anything(z);
    }
}

/// What a hybrid model keeps, in 32nds of a byte: the elements of its attention
/// layers and the state of its SSM layers. Layers that the model does not have
/// count against it.
pub open spec fn hybrid_parts(m: ModelView, layers: nat, heads: nat, width: nat, state: nat, ctx: nat, prec: KvPrecision) -> int {
    full_elements(layers, heads, width, ctx) * prec.block_bytes() + 32 * ((m.n_layers - layers) * state)
}

/// So is one beside the state of SSM layers; nothing where the layer counts
/// contradict each other by more than the attention layers keep.
pub proof fn a_hybrid_cache_is_counted_exactly(
    m: ModelView,
    layers: u32,
    heads: u32,
    width: u32,
    state: u64,
    ctx: nat,
    prec: KvPrecision,
)
    requires
        m.attention == (Attention::Hybrid { attn_layers: layers, n_kv_heads: heads, head_dim: width, ssm_state_bytes: state }),
        m.n_layers <= u32::MAX && ctx <= u32::MAX,
        full_elements(layers as nat, heads as nat, width as nat, ctx) * prec.block_bytes() + 32 * (distance(m.n_layers - layers)
            * state as nat) < 0x20_0000_0000_0000,
    ensures
        ({
            let parts = hybrid_parts(m, layers as nat, heads as nat, width as nat, state as nat, ctx, prec);
            m.kv_bytes(ctx, prec) == (if parts < 0 {
                0
            } else {
                parts / 32
            })
        }),
{
    reveal(ModelView::kv_total);
    let n = full_elements(layers as nat, heads as nat, width as nat, ctx);
    let b = prec.block_bytes();
    let rest = distance(m.n_layers - layers);
    let c = rest * state as nat;
    let x = m.full_layers(layers as nat, heads as nat, width as nat, ctx, prec);
    let k = Double::count(state as nat);
    assert(c >= 0 && n * b >= 0) by (nonlinear_arith)
        requires
            c == rest * state as nat,
    ;
    lemma_full_layers_exact(m, layers as nat, heads as nat, width as nat, ctx, prec);
    lemma_powers();
    a_count_is_within(state as nat, 64);
    lemma_nothing_has_no_units();
    if rest == 0 {
        assert((m.n_layers - layers) * state == 0 && c == 0) by (nonlinear_arith)
            requires
                m.n_layers - layers == 0,
                c == rest * state as nat,
                rest == 0,
        ;
        small_counts_are_taken_exactly(m.n_layers, layers as nat);
        nothing_times_anything(k);
        lemma_plus_bytes(x, n * b, 0);
    } else {
        assert(c >= state) by (nonlinear_arith)
            requires
                c == rest * state as nat,
                rest >= 1,
        ;
        small_counts_multiply_exactly(rest, state as nat);
        small_counts_are_exact(rest);
        small_counts_are_exact(state as nat);
        small_counts_are_exact(c);
        if m.n_layers > layers {
            small_counts_are_taken_exactly(m.n_layers, layers as nat);
            lemma_plus_bytes(x, n * b, c);
        } else {
            small_counts_are_overdrawn_exactly(m.n_layers, layers as nat);
            lemma_opposite_product(Double::count(rest), k);
            assert((m.n_layers - layers) * state == -(c as int)) by (nonlinear_arith)
                requires
                    c == rest * state as nat,
                    rest == layers - m.n_layers,
            ;
            lemma_minus_bytes(x, n * b, c);
        }
    }
}

/// Against a number, what is taken of it is taken.
proof fn lemma_opposite_product(a: Double, b: Double)
    requires
        a.finite() && b.finite(),
        !a.negative() && !b.negative(),
        a.product(b).finite(),
    ensures
        a.opposite().product(b) == a.product(b).opposite(),
{
    let o = a.opposite();
    assert(o.magnitude() == a.magnitude() && o.negative() && o.units() == a.units());
    reveal(Double::product);
}

proof fn lemma_two()
    ensures
        Double::count(2) == (Double { bits: TWO_BITS }),
{
    reveal(Double::count);
    an_element_is_its_share_of_a_block(KvPrecision::F16);
    let two = Double { bits: TWO_BITS };
    assert(two.units() == 2 * pow2(1074));
    a_double_rounds_to_itself(two);
}

/// A context has one largest size: what fits is decided.
pub proof fn max_context_is_unique(m: ModelView, a: nat, b: nat, room: nat, prec: KvPrecision)
    requires
        m.is_max_context(a, room, prec),
        m.is_max_context(b, room, prec),
    ensures
        a == b,
{
}

/// More room never means less context.
pub proof fn more_room_holds_more_context(m: ModelView, a: nat, b: nat, room: nat, more: nat, prec: KvPrecision)
    requires
        m.is_max_context(a, room, prec),
        m.is_max_context(b, more, prec),
        room <= more,
    ensures
        a <= b,
{
}

fn of_small(n: u32) -> (r: Double)
    ensures
        r == Double::count(n as nat),
{
    Double::of_count(n as u64)
}

impl ModelSpec {
    fn full_layers(&self, layers: u32, heads: u32, width: u32, ctx: u32, prec: KvPrecision) -> (r: Double)
        ensures
            r == self@.full_layers(layers as nat, heads as nat, width as nat, ctx as nat, prec),
    {
        (Double { bits: TWO_BITS }).times(of_small(layers)).times(of_small(heads)).times(of_small(width)).times(
            of_small(ctx),
        ).times(prec.bytes())
    }

    fn swa_tokens(&self, ctx: u32, window: u32, every: u32) -> (r: Double)
        ensures
            r == self@.swa_tokens(ctx as nat, window as nat, every as nat),
    {
        let global = of_small(self.n_layers / (if every == 0 { 1 } else { every }));
        let local = of_small(self.n_layers).less(global);
        let near: u32 = if ctx <= window { ctx } else { window };
        global.times(of_small(ctx)).plus(local.times(of_small(near)))
    }

    /// Total KV cache bytes at a given context length.
    ///
    /// Not simply `per_token * ctx`: sliding-window layers stop growing once
    /// the window fills, and SSM layers never grow at all.
    pub fn kv_bytes(&self, ctx: u32, prec: KvPrecision) -> (r: u64)
        requires
            self@.kv_countable(),
        ensures
            r as nat == self@.kv_bytes(ctx as nat, prec),
    {
        proof {
            reveal(ModelView::kv_total);
        }
        let total = match self.attention {
            Attention::Gqa { n_kv_heads, head_dim } => self.full_layers(self.n_layers, n_kv_heads, head_dim, ctx, prec),
            Attention::Mla { kv_lora_rank, rope_head_dim } => of_small(self.n_layers).times(
                of_small(kv_lora_rank + rope_head_dim),
            ).times(of_small(ctx)).times(prec.bytes()),
            Attention::Swa { n_kv_heads, head_dim, window, global_every } => (Double { bits: TWO_BITS }).times(
                of_small(n_kv_heads),
            ).times(of_small(head_dim)).times(prec.bytes()).times(self.swa_tokens(ctx, window, global_every)),
            Attention::Hybrid { attn_layers, n_kv_heads, head_dim, ssm_state_bytes } => self.full_layers(
                attn_layers,
                n_kv_heads,
                head_dim,
                ctx,
                prec,
            ).plus(of_small(self.n_layers).less(of_small(attn_layers)).times(Double::of_count(ssm_state_bytes))),
        };
        total.as_count()
    }

    /// Marginal KV cost of one more token at the given context, averaged over
    /// the next 256. For SWA this falls to near zero once the window is full.
    pub fn kv_bytes_per_token(&self, ctx: u32, prec: KvPrecision) -> (r: u64)
        requires
            self@.kv_countable(),
            ctx <= u32::MAX - 256,
        ensures
            r as int == (self@.kv_bytes((ctx + 256) as nat, prec) - self@.kv_bytes(ctx as nat, prec)) / 256,
    {
        let a: u64 = self.kv_bytes(ctx, prec);
        let b: u64 = self.kv_bytes(ctx + 256, prec);
        proof {
            kv_bytes_grow_with_context(self@, ctx as nat, (ctx + 256) as nat, prec);
        }
        (b - a) / 256
    }

    /// Whether the transient buffers can be counted.
    pub fn buffer_fits(&self, ubatch: u32) -> (r: bool)
        ensures
            r == (self@.buffer_bytes(ubatch as nat) <= u64::MAX),
    {
        let ghost area = ubatch as int * self.n_embd as int;
        assert(0 <= area <= u32::MAX as int * u32::MAX as int) by (nonlinear_arith)
            requires
                area == ubatch as int * self.n_embd as int,
                0 <= ubatch <= u32::MAX,
                0 <= self.n_embd <= u32::MAX,
        ;
        let activations: u128 = ubatch as u128 * self.n_embd as u128 * 80;
        let logits: u128 = self.n_vocab as u128 * 4;
        activations + logits + 67_108_864 <= u64::MAX as u128
    }

    /// Transient buffers the runtime allocates for the compute graph.
    ///
    /// Dominated by activation tensors sized `ubatch * n_embd`, twenty of them
    /// alive at four bytes each, plus the logits of the last position.
    pub fn compute_buffer_bytes(&self, ubatch: u32) -> (r: u64)
        requires
            self@.buffer_bytes(ubatch as nat) <= u64::MAX,
        ensures
            r as nat == self@.buffer_bytes(ubatch as nat),
    {
        let ghost area = ubatch as int * self.n_embd as int;
        assert(0 <= area <= u32::MAX as int * u32::MAX as int) by (nonlinear_arith)
            requires
                area == ubatch as int * self.n_embd as int,
                0 <= ubatch <= u32::MAX,
                0 <= self.n_embd <= u32::MAX,
        ;
        let activations: u64 = ubatch as u64 * self.n_embd as u64 * 80;
        let logits: u64 = self.n_vocab as u64 * 4;
        activations + logits + 67_108_864
    }

    /// Largest context whose KV cache fits in `for_kv` bytes.
    ///
    /// Binary search rather than division because SWA and hybrid layers make
    /// the relationship non-linear.
    pub fn max_context_in(&self, for_kv: u64, prec: KvPrecision) -> (r: u32)
        requires
            self@.kv_countable(),
        ensures
            self@.is_max_context(r as nat, for_kv as nat, prec),
    {
        let mut lo: u32 = 0;
        let mut hi: u32 = CONTEXT_LIMIT;
        while lo < hi
            invariant
                self@.kv_countable(),
                lo <= hi <= CONTEXT_LIMIT,
                lo > 0 ==> self@.kv_bytes(lo as nat, prec) <= for_kv,
                forall|c: nat| hi < c <= CONTEXT_LIMIT ==> #[trigger] self@.kv_bytes(c, prec) > for_kv,
            decreases hi - lo,
        {
            let mid: u32 = lo + (hi - lo + 1) / 2;
            if self.kv_bytes(mid, prec) <= for_kv {
                lo = mid;
            } else {
                proof {
                    assert forall|c: nat| mid - 1 < c <= CONTEXT_LIMIT implies #[trigger] self@.kv_bytes(c, prec) > for_kv by {
                        kv_bytes_grow_with_context(self@, mid as nat, c, prec);
                    }
                }
                hi = mid - 1;
            }
        }
        lo
    }

    /// Largest context that fits in `budget` bytes alongside fully-resident
    /// weights.
    pub fn max_context(&self, budget: u64, weight_bytes: u64, prec: KvPrecision, ubatch: u32) -> (r: u32)
        requires
            self@.kv_countable(),
            weight_bytes + self@.buffer_bytes(ubatch as nat) <= u64::MAX,
        ensures
            ({
                let fixed = weight_bytes + self@.buffer_bytes(ubatch as nat);
                if fixed >= budget {
                    r == 0
                } else {
                    self@.is_max_context(r as nat, (budget - fixed) as nat, prec)
                }
            }),
    {
        let fixed: u64 = weight_bytes + self.compute_buffer_bytes(ubatch);
        if fixed >= budget {
            return 0;
        }
        self.max_context_in(budget - fixed, prec)
    }
}

} // verus!
