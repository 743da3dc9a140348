//! The catalog entries that are part of the library.

use vstd::prelude::*;
use crate::json::slices;

verus! {

pub const LLAMA_3_1_8B: &'static str = "{\"id\":\"llama-3.1-8b\",\"n_layers\":32,\"n_embd\":4096,\"n_vocab\":128256,\"params\":8030000000,\"n_ctx_train\":131072,\"attention\":{\"kind\":\"gqa\",\"n_kv_heads\":8,\"head_dim\":128},\"quants\":[{\"name\":\"Q4_K_M\",\"bytes\":4920000000,\"family\":\"k_quant\"},{\"name\":\"Q8_0\",\"bytes\":8540000000,\"family\":\"legacy\"}]}";

pub const LLAMA_3_3_70B: &'static str = "{\"id\":\"llama-3.3-70b\",\"n_layers\":80,\"n_embd\":8192,\"n_vocab\":128256,\"params\":70600000000,\"n_ctx_train\":131072,\"attention\":{\"kind\":\"gqa\",\"n_kv_heads\":8,\"head_dim\":128},\"quants\":[{\"name\":\"Q4_K_M\",\"bytes\":42520000000,\"family\":\"k_quant\"}]}";

pub const QWEN3_4B: &'static str = "{\"id\":\"qwen3-4b\",\"n_layers\":36,\"n_embd\":2560,\"n_vocab\":151936,\"params\":4020000000,\"n_ctx_train\":40960,\"attention\":{\"kind\":\"gqa\",\"n_kv_heads\":8,\"head_dim\":128},\"quants\":[{\"name\":\"Q4_K_M\",\"bytes\":2500000000,\"family\":\"k_quant\"},{\"name\":\"Q8_0\",\"bytes\":4280000000,\"family\":\"legacy\"}]}";

pub const QWEN3_30B_A3B: &'static str = "{\"id\":\"qwen3-30b-a3b\",\"n_layers\":48,\"n_embd\":2048,\"n_vocab\":151936,\"params\":30500000000,\"n_ctx_train\":40960,\"attention\":{\"kind\":\"gqa\",\"n_kv_heads\":4,\"head_dim\":128},\"moe\":{\"n_expert\":128,\"n_active\":8,\"expert_params\":4718592,\"shared_params\":1540000000},\"quants\":[{\"name\":\"Q4_K_M\",\"bytes\":18560000000,\"family\":\"k_quant\"},{\"name\":\"IQ4_XS\",\"bytes\":16500000000,\"family\":\"i_quant\"}]}";

pub const DEEPSEEK_V3: &'static str = "{\"id\":\"deepseek-v3\",\"n_layers\":61,\"n_embd\":7168,\"n_vocab\":129280,\"params\":671000000000,\"n_ctx_train\":163840,\"attention\":{\"kind\":\"mla\",\"kv_lora_rank\":512,\"rope_head_dim\":64},\"moe\":{\"n_expert\":256,\"n_active\":8,\"expert_params\":44040192,\"shared_params\":15500000000},\"quants\":[{\"name\":\"Q4_K_M\",\"bytes\":404000000000,\"family\":\"k_quant\"}]}";

pub const GEMMA_3_12B: &'static str = "{\"id\":\"gemma-3-12b\",\"n_layers\":48,\"n_embd\":3840,\"n_vocab\":262208,\"params\":12190000000,\"n_ctx_train\":131072,\"attention\":{\"kind\":\"swa\",\"n_kv_heads\":8,\"head_dim\":256,\"window\":1024,\"global_every\":6},\"quants\":[{\"name\":\"Q4_K_M\",\"bytes\":7300000000,\"family\":\"k_quant\"}]}";

/// The texts of the embedded entries.
pub open spec fn embedded_texts() -> Seq<Seq<char>> {
    seq![LLAMA_3_1_8B@, LLAMA_3_3_70B@, QWEN3_4B@, QWEN3_30B_A3B@, DEEPSEEK_V3@, GEMMA_3_12B@]
}

/// The embedded entries.
pub fn embedded() -> (r: Vec<&'static str>)
    ensures
        slices(r@) == embedded_texts(),
{
    let v: Vec<&'static str> = vec![LLAMA_3_1_8B, LLAMA_3_3_70B, QWEN3_4B, QWEN3_30B_A3B, DEEPSEEK_V3, GEMMA_3_12B];
    assert(slices(v@) =~= embedded_texts());
    v
}

} // verus!
