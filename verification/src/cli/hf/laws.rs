//! What holds of every repository that is read.

use vstd::prelude::*;
use crate::chars::{index_of, lemma_index_of, split, starts_with};
use crate::cli::hf::{
    context_beside, dtype_size, fetched_in, is_repo_char, is_repo_id, known_dtypes, share_place, uncounted, verdict_text, weights_in,
    FetchedView,
};
use crate::json::{boolean_at, keys_from, object_text, whole_at};
use crate::kv::{KvPrecision, CONTEXT_LIMIT};
use crate::spec::Attention;

verus! {

/// What a configuration states under a key.
pub open spec fn stated(config: Seq<char>, key: Seq<char>) -> Option<nat> {
    whole_at(config, key, 0xFFFF_FFFF)
}

pub open spec fn kv_heads_of(a: Attention) -> nat {
    match a {
        Attention::Gqa { n_kv_heads, .. } => n_kv_heads as nat,
        Attention::Swa { n_kv_heads, .. } => n_kv_heads as nat,
        Attention::Mla { .. } => 0,
        Attention::Hybrid { n_kv_heads, .. } => n_kv_heads as nat,
    }
}

pub open spec fn head_dim_of(a: Attention) -> nat {
    match a {
        Attention::Gqa { head_dim, .. } => head_dim as nat,
        Attention::Swa { head_dim, .. } => head_dim as nat,
        Attention::Mla { .. } => 0,
        Attention::Hybrid { head_dim, .. } => head_dim as nat,
    }
}

/// A model has the layers, the width and the vocabulary that its configuration
/// states; it is not routed, and was trained for the context that is stated.
pub proof fn a_fetched_model_has_the_stated_sizes(id: Seq<char>, api: Seq<char>, config: Seq<char>, f: FetchedView)
    requires
        fetched_in(id, api, config) == Ok::<FetchedView, Seq<char>>(f),
    ensures
        f.spec.id == id,
        stated(config, "num_hidden_layers"@) == Some(f.spec.n_layers),
        stated(config, "hidden_size"@) == Some(f.spec.n_embd),
        stated(config, "vocab_size"@) == Some(f.spec.n_vocab),
        f.spec.moe is None,
        (stated(config, "max_position_embeddings"@) matches Some(c) && c > 0) ==> (f.spec.n_ctx_train matches Some(t) && Some(t as nat)
            == stated(config, "max_position_embeddings"@)),
        stated(config, "max_position_embeddings"@) is None || stated(config, "max_position_embeddings"@) == Some(0nat)
            ==> f.spec.n_ctx_train is None,
{
}

/// A model's heads are as wide as its configuration states. Only where it
/// states no width do they divide the hidden size among themselves. It keeps
/// keys and values of as many heads as are stated, or of all.
pub proof fn a_fetched_model_has_the_stated_heads(id: Seq<char>, api: Seq<char>, config: Seq<char>, f: FetchedView)
    requires
        fetched_in(id, api, config) == Ok::<FetchedView, Seq<char>>(f),
    ensures
        stated(config, "head_dim"@) matches Some(d) ==> head_dim_of(f.spec.attention) == d,
        stated(config, "head_dim"@) is None ==> (stated(config, "num_attention_heads"@) matches Some(n) && n > 0 && head_dim_of(
            f.spec.attention,
        ) == f.spec.n_embd / n),
        head_dim_of(f.spec.attention) > 0,
        stated(config, "num_key_value_heads"@) matches Some(k) ==> kv_heads_of(f.spec.attention) == k,
        stated(config, "num_key_value_heads"@) is None ==> stated(config, "num_attention_heads"@) == Some(kv_heads_of(f.spec.attention)),
        kv_heads_of(f.spec.attention) > 0,
{
    if let Some(n) = stated(config, "num_attention_heads"@) {
        if n > 0 {
            vstd::arithmetic::div_mod::lemma_div_nonincreasing(f.spec.n_embd as int, n as int);
        }
    }
}

/// A window is believed where one is stated and not switched off, and then it
/// is the stated one.
pub proof fn a_window_is_used_only_where_it_is_on(id: Seq<char>, api: Seq<char>, config: Seq<char>, f: FetchedView)
    requires
        fetched_in(id, api, config) == Ok::<FetchedView, Seq<char>>(f),
    ensures
        (f.spec.attention is Swa) <==> (stated(config, "sliding_window"@) matches Some(w) && w > 0 && boolean_at(
            config,
            "use_sliding_window"@,
        ) != Some(false)),
        f.spec.attention is Swa || f.spec.attention is Gqa,
        f.spec.attention matches Attention::Swa { window, global_every, .. } ==> {
            &&& stated(config, "sliding_window"@) == Some(window as nat)
            &&& (stated(config, "sliding_window_pattern"@) matches Some(n) && n > 0) ==> stated(config, "sliding_window_pattern"@) == Some(
                global_every as nat,
            )
            &&& stated(config, "sliding_window_pattern"@) is None || stated(config, "sliding_window_pattern"@) == Some(0nat)
                ==> global_every == 1
        },
{
}

/// A configuration that states enough is read; one that does not is refused.
pub proof fn what_states_enough_is_read(id: Seq<char>, api: Seq<char>, config: Seq<char>)
    ensures
        stated(config, "num_hidden_layers"@) is None || stated(config, "hidden_size"@) is None || stated(config, "vocab_size"@) is None
            ==> fetched_in(id, api, config) is Err,
        object_text(api, "parameters"@) is None ==> fetched_in(id, api, config) is Err,
        ({
            let heads = stated(config, "num_attention_heads"@);
            let some_heads = heads matches Some(n) && n > 0;
            let kept = stated(config, "num_key_value_heads"@) matches Some(k) && k > 0;
            let wide = stated(config, "head_dim"@) matches Some(d) && d > 0;
            &&& stated(config, "num_hidden_layers"@) is Some && stated(config, "hidden_size"@) is Some && stated(config, "vocab_size"@) is Some
            &&& kept || (stated(config, "num_key_value_heads"@) is None && some_heads)
            &&& wide || (stated(config, "head_dim"@) is None && some_heads && stated(config, "hidden_size"@)->0 >= heads->0)
            &&& object_text(api, "parameters"@) matches Some(o)
            &&& uncounted(o, keys_from(o, 0)) is None
            &&& 0 < weights_in(o, known_dtypes()).params
            &&& weights_in(o, known_dtypes()).bytes <= u64::MAX
        }) ==> fetched_in(id, api, config) is Ok,
{
    if let Some(n) = stated(config, "num_attention_heads"@) {
        if let Some(h) = stated(config, "hidden_size"@) {
            if 0 < n <= h {
                assert(h / n >= 1) by (nonlinear_arith)
                    requires
                        0 < n <= h,
                ;
            }
        }
    }
}

// --------------------------------------------------------------------- weights

/// How many elements are stated of a type.
pub open spec fn elements(object: Seq<char>, tag: Seq<char>) -> nat {
    match whole_at(object, tag, 0xFFFF_FFFF_FFFF_FFFF) {
        Some(n) => n,
        None => 0,
    }
}

/// The weights of a repository are the elements of every type by the size of
/// that type: eight, four, two or one byte.
pub proof fn weights_are_elements_by_their_size(object: Seq<char>)
    ensures
        ({
            let w = weights_in(object, known_dtypes());
            let eight = elements(object, "F64"@) + elements(object, "I64"@) + elements(object, "U64"@);
            let four = elements(object, "F32"@) + elements(object, "I32"@) + elements(object, "U32"@);
            let two = elements(object, "F16"@) + elements(object, "BF16"@) + elements(object, "I16"@) + elements(object, "U16"@);
            let single = elements(object, "F8_E4M3"@) + elements(object, "F8_E5M2"@) + elements(object, "I8"@) + elements(object, "U8"@)
                + elements(object, "BOOL"@);
            &&& w.params == eight + four + two + single
            &&& w.bytes == 8 * eight + 4 * four + 2 * two + single
        }),
{
    let d = known_dtypes();
    lemma_first_types(object);
    lemma_middle_types(object);
    lemma_last_types(object);
    assert(d.subrange(0, 15) =~= d);
    assert(d.subrange(0, 0) =~= Seq::<Seq<char>>::empty());
}

proof fn lemma_first_types(object: Seq<char>)
    ensures
        ({
            let (a, b) = (
                weights_in(object, known_dtypes().subrange(0, 0)),
                weights_in(object, known_dtypes().subrange(0, 5)),
            );
            &&& b.params == a.params + elements(object, "F64"@) + elements(object, "F32"@) + elements(object, "F16"@) + elements(object, "BF16"@) + elements(object, "F8_E4M3"@)
            &&& b.bytes == a.bytes + 8 * elements(object, "F64"@) + 4 * elements(object, "F32"@) + 2 * elements(object, "F16"@) + 2 * elements(object, "BF16"@) + 1 * elements(object, "F8_E4M3"@)
        }),
{
    lemma_tags();
    assert(known_dtypes().len() == 15);
    lemma_weights_step(object, 1, "F64"@, 8);
    lemma_weights_step(object, 2, "F32"@, 4);
    lemma_weights_step(object, 3, "F16"@, 2);
    lemma_weights_step(object, 4, "BF16"@, 2);
    lemma_weights_step(object, 5, "F8_E4M3"@, 1);
}

proof fn lemma_middle_types(object: Seq<char>)
    ensures
        ({
            let (a, b) = (
                weights_in(object, known_dtypes().subrange(0, 5)),
                weights_in(object, known_dtypes().subrange(0, 10)),
            );
            &&& b.params == a.params + elements(object, "F8_E5M2"@) + elements(object, "I64"@) + elements(object, "I32"@) + elements(object, "I16"@) + elements(object, "I8"@)
            &&& b.bytes == a.bytes + 1 * elements(object, "F8_E5M2"@) + 8 * elements(object, "I64"@) + 4 * elements(object, "I32"@) + 2 * elements(object, "I16"@) + 1 * elements(object, "I8"@)
        }),
{
    lemma_tags();
    assert(known_dtypes().len() == 15);
    lemma_weights_step(object, 6, "F8_E5M2"@, 1);
    lemma_weights_step(object, 7, "I64"@, 8);
    lemma_weights_step(object, 8, "I32"@, 4);
    lemma_weights_step(object, 9, "I16"@, 2);
    lemma_weights_step(object, 10, "I8"@, 1);
}

proof fn lemma_last_types(object: Seq<char>)
    ensures
        ({
            let (a, b) = (
                weights_in(object, known_dtypes().subrange(0, 10)),
                weights_in(object, known_dtypes().subrange(0, 15)),
            );
            &&& b.params == a.params + elements(object, "U8"@) + elements(object, "BOOL"@) + elements(object, "U64"@) + elements(object, "U32"@) + elements(object, "U16"@)
            &&& b.bytes == a.bytes + 1 * elements(object, "U8"@) + 1 * elements(object, "BOOL"@) + 8 * elements(object, "U64"@) + 4 * elements(object, "U32"@) + 2 * elements(object, "U16"@)
        }),
{
    lemma_tags();
    assert(known_dtypes().len() == 15);
    lemma_weights_step(object, 11, "U8"@, 1);
    lemma_weights_step(object, 12, "BOOL"@, 1);
    lemma_weights_step(object, 13, "U64"@, 8);
    lemma_weights_step(object, 14, "U32"@, 4);
    lemma_weights_step(object, 15, "U16"@, 2);
}

proof fn lemma_weights_step(object: Seq<char>, n: int, tag: Seq<char>, size: nat)
    requires
        1 <= n <= 15,
        known_dtypes()[n - 1] == tag,
        dtype_size(tag) == Some(size),
    ensures
        ({
            let (a, b) = (
                weights_in(object, known_dtypes().subrange(0, n - 1)),
                weights_in(object, known_dtypes().subrange(0, n)),
            );
            &&& b.params == a.params + elements(object, tag)
            &&& b.bytes == a.bytes + size * elements(object, tag)
        }),
{
    let d = known_dtypes();
    assert(d.subrange(0, n).drop_last() =~= d.subrange(0, n - 1));
    assert(d.subrange(0, n).last() == d[n - 1]);
    assert(elements(object, tag) * size == size * elements(object, tag)) by (nonlinear_arith);
    assert(0 * size == 0) by (nonlinear_arith);
}

/// The sizes of the types.
proof fn lemma_tags()
    ensures
        dtype_size("F64"@) == Some(8nat) && dtype_size("I64"@) == Some(8nat) && dtype_size("U64"@) == Some(8nat),
        dtype_size("F32"@) == Some(4nat) && dtype_size("I32"@) == Some(4nat) && dtype_size("U32"@) == Some(4nat),
        dtype_size("F16"@) == Some(2nat) && dtype_size("BF16"@) == Some(2nat) && dtype_size("I16"@) == Some(2nat) && dtype_size("U16"@)
            == Some(2nat),
        dtype_size("F8_E4M3"@) == Some(1nat) && dtype_size("F8_E5M2"@) == Some(1nat) && dtype_size("I8"@) == Some(1nat) && dtype_size(
            "U8"@,
        ) == Some(1nat) && dtype_size("BOOL"@) == Some(1nat),
{
    reveal_strlit("F64");
    reveal_strlit("I64");
    reveal_strlit("U64");
    reveal_strlit("F32");
    reveal_strlit("I32");
    reveal_strlit("U32");
    reveal_strlit("F16");
    reveal_strlit("BF16");
    reveal_strlit("I16");
    reveal_strlit("U16");
    reveal_strlit("F8_E4M3");
    reveal_strlit("F8_E5M2");
    reveal_strlit("I8");
    reveal_strlit("U8");
    reveal_strlit("BOOL");
    assert("F64"@[1] == '6' && "I64"@[1] == '6' && "U64"@[1] == '6');
    assert("F32"@[1] == '3' && "I32"@[1] == '3' && "U32"@[1] == '3');
    assert("F16"@[1] == '1' && "I16"@[1] == '1' && "U16"@[1] == '1');
    assert("BF16"@.len() == 4 && "BOOL"@.len() == 4 && "BF16"@[1] == 'F' && "BOOL"@[1] == 'O');
    assert("I8"@.len() == 2 && "U8"@.len() == 2 && "F8_E4M3"@.len() == 7 && "F8_E5M2"@.len() == 7);
    assert("F64"@.len() == 3 && "I64"@.len() == 3 && "U64"@.len() == 3 && "F32"@.len() == 3 && "I32"@.len() == 3 && "U32"@.len() == 3);
    assert("F16"@.len() == 3 && "I16"@.len() == 3 && "U16"@.len() == 3);
}

/// The types of the weights are listed by their elements, most first.
pub proof fn the_largest_share_is_named_first(object: Seq<char>, tags: Seq<Seq<char>>)
    ensures
        forall|i: int, j: int|
            0 <= i < j < weights_in(object, tags).seen.len() ==> (#[trigger] weights_in(object, tags).seen[i]).1 >= (
            #[trigger] weights_in(object, tags).seen[j]).1,
        forall|i: int|
            0 <= i < weights_in(object, tags).seen.len() ==> (#[trigger] weights_in(object, tags).seen[i]).1 > 0 && elements(
                object,
                weights_in(object, tags).seen[i].0,
            ) == weights_in(object, tags).seen[i].1,
    decreases tags.len(),
{
    if tags.len() > 0 {
        the_largest_share_is_named_first(object, tags.drop_last());
        let w = weights_in(object, tags.drop_last());
        let n = elements(object, tags.last());
        if n > 0 {
            lemma_share_place(w.seen, n);
            let p = share_place(w.seen, n);
            let s = w.seen.insert(p, (tags.last(), n));
            assert(weights_in(object, tags).seen == s);
            assert forall|i: int, j: int| 0 <= i < j < s.len() implies (#[trigger] s[i]).1 >= (#[trigger] s[j]).1 by {
                if i < p && j < p {
                    assert(s[i] == w.seen[i] && s[j] == w.seen[j]);
                } else if i < p && j > p {
                    assert(s[i] == w.seen[i] && s[j] == w.seen[j - 1]);
                } else if i > p {
                    assert(s[i] == w.seen[i - 1] && s[j] == w.seen[j - 1]);
                } else if i == p {
                    assert(s[j] == w.seen[j - 1]);
                } else {
                    assert(s[i] == w.seen[i]);
                }
            }
            assert forall|i: int| 0 <= i < s.len() implies (#[trigger] s[i]).1 > 0 && elements(object, s[i].0) == s[i].1 by {
                if i < p {
                    assert(s[i] == w.seen[i]);
                } else if i > p {
                    assert(s[i] == w.seen[i - 1]);
                }
            }
        }
    }
}

proof fn lemma_share_place(seen: Seq<(Seq<char>, nat)>, n: nat)
    requires
        forall|i: int, j: int| 0 <= i < j < seen.len() ==> (#[trigger] seen[i]).1 >= (#[trigger] seen[j]).1,
    ensures
        0 <= share_place(seen, n) <= seen.len(),
        forall|i: int| 0 <= i < share_place(seen, n) ==> (#[trigger] seen[i]).1 >= n,
        forall|i: int| share_place(seen, n) <= i < seen.len() ==> (#[trigger] seen[i]).1 < n,
    decreases seen.len(),
{
    if seen.len() > 0 && seen.last().1 < n {
        let rest = seen.drop_last();
        assert forall|i: int, j: int| 0 <= i < j < rest.len() implies (#[trigger] rest[i]).1 >= (#[trigger] rest[j]).1 by {
            assert(rest[i] == seen[i] && rest[j] == seen[j]);
        }
        lemma_share_place(rest, n);
        assert forall|i: int| 0 <= i < share_place(seen, n) implies (#[trigger] seen[i]).1 >= n by {
            assert(rest[i] == seen[i]);
        }
        assert forall|i: int| share_place(seen, n) <= i < seen.len() implies (#[trigger] seen[i]).1 < n by {
            if i < rest.len() {
                assert(rest[i] == seen[i]);
            }
        }
    } else if seen.len() > 0 {
        assert forall|i: int| 0 <= i < seen.len() implies (#[trigger] seen[i]).1 >= n by {
            if i < seen.len() - 1 {
                assert(seen[i].1 >= seen[seen.len() - 1].1);
            }
        }
    }
}

/// No tensor is left out of a total: a type that is not known, or that has no
/// count, refuses the repository.
pub proof fn no_tensor_is_left_out(id: Seq<char>, api: Seq<char>, config: Seq<char>, object: Seq<char>, i: int)
    requires
        object_text(api, "parameters"@) == Some(object),
        0 <= i < keys_from(object, 0).len(),
        !known_dtypes().contains(keys_from(object, 0)[i]) || whole_at(object, keys_from(object, 0)[i], 0xFFFF_FFFF_FFFF_FFFF) is None,
    ensures
        fetched_in(id, api, config) is Err,
{
    let keys = keys_from(object, 0);
    assert(uncounted(object, keys) is Some) by {
        lemma_uncounted(object, keys, i);
    }
}

proof fn lemma_uncounted(object: Seq<char>, keys: Seq<Seq<char>>, i: int)
    requires
        0 <= i < keys.len(),
        !known_dtypes().contains(keys[i]) || whole_at(object, keys[i], 0xFFFF_FFFF_FFFF_FFFF) is None,
    ensures
        uncounted(object, keys) is Some,
    decreases keys.len(),
{
    if i < keys.len() - 1 {
        assert(keys.drop_last()[i] == keys[i]);
        lemma_uncounted(object, keys.drop_last(), i);
    } else {
        let d = known_dtypes();
        if dtype_size(keys[i]) is Some {
            assert(d[0] == "F64"@ && d[1] == "F32"@ && d[2] == "F16"@ && d[3] == "BF16"@ && d[4] == "F8_E4M3"@ && d[5] == "F8_E5M2"@);
            assert(d[6] == "I64"@ && d[7] == "I32"@ && d[8] == "I16"@ && d[9] == "I8"@ && d[10] == "U8"@ && d[11] == "BOOL"@);
            assert(d[12] == "U64"@ && d[13] == "U32"@ && d[14] == "U16"@);
            assert(d.contains(keys[i]));
        }
    }
}

// ---------------------------------------------------------------------- fitting

/// The context that is offered fits beside the weights and the buffers, and one
/// token more would not, unless the model was not trained for it.
pub proof fn the_context_offered_is_the_longest_that_fits(f: FetchedView, budget: nat, kv: KvPrecision, ubatch: nat)
    requires
        f.weight_bytes + f.spec.buffer_bytes(ubatch) <= budget,
        f.spec.n_layers <= u32::MAX,
    ensures
        ({
            let c = context_beside(f, budget, kv, ubatch);
            &&& c > 0 ==> f.weight_bytes + f.spec.buffer_bytes(ubatch) + f.spec.kv_bytes(c, kv) <= budget
            &&& f.spec.n_ctx_train matches Some(t) ==> c <= t
            &&& c < CONTEXT_LIMIT && (f.spec.n_ctx_train matches Some(t) ==> c < t) ==> f.weight_bytes + f.spec.buffer_bytes(ubatch)
                + f.spec.kv_bytes(c + 1, kv) > budget
        }),
{
    let room = (budget - f.spec.buffer_bytes(ubatch) - f.weight_bytes) as nat;
    crate::predict::lemma_largest_context(f.spec, CONTEXT_LIMIT as nat, room, kv);
    let fits = f.spec.largest_context(CONTEXT_LIMIT as nat, room, kv);
    let c = context_beside(f, budget, kv, ubatch);
    if c > 0 {
        crate::kv::kv_bytes_grow_with_context(f.spec, c, fits, kv);
    }
}

/// A model fits exactly where its weights and buffers leave something of the
/// budget and a context of 512 tokens fits beside them.
pub proof fn a_model_fits_beside_a_context(f: FetchedView, budget: nat, kv: KvPrecision, ubatch: nat, ctx: nat)
    ensures
        starts_with(verdict_text(f, budget, kv, ubatch, ctx), "\n  FITS         up to "@) <==> f.weight_bytes + f.spec.buffer_bytes(ubatch)
            < budget && ctx >= 512,
        starts_with(verdict_text(f, budget, kv, ubatch, ctx), "\n  WON'T FIT    "@) <==> f.weight_bytes + f.spec.buffer_bytes(ubatch)
            >= budget || ctx < 512,
{
    let fits = "\n  FITS         up to "@;
    let not = "\n  WON'T FIT    "@;
    reveal_strlit("\n  FITS         up to ");
    reveal_strlit("\n  WON'T FIT    ");
    reveal_strlit("\n  WON'T FIT    the published weights alone are ");
    reveal_strlit("\n  WON'T FIT    weights fit, but no usable context fits beside them\n");
    let t = verdict_text(f, budget, kv, ubatch, ctx);
    let need = f.weight_bytes + f.spec.buffer_bytes(ubatch);
    if need >= budget {
        let w = "\n  WON'T FIT    the published weights alone are "@;
        assert(t.subrange(0, not.len() as int) =~= not);
        assert(t[3] == w[3]);
    } else if ctx < 512 {
        assert(t.subrange(0, not.len() as int) =~= not);
    } else {
        assert(t.subrange(0, fits.len() as int) =~= fits);
        assert(t[3] == fits[3]);
    }
    if starts_with(t, fits) {
        assert(t.subrange(0, fits.len() as int)[3] == fits[3]);
    }
    if starts_with(t, not) {
        assert(t.subrange(0, not.len() as int)[3] == not[3]);
    }
}

// ------------------------------------------------------------------------ names

/// A repository is named by two names of letters, digits, dashes, underscores
/// and dots with one slash between them, and does not start with a dot.
pub proof fn a_repository_is_two_names_and_a_slash(s: Seq<char>, k: int)
    requires
        0 <= k < s.len(),
        s[k] == '/',
    ensures
        is_repo_id(s) <==> 0 < k < s.len() - 1 && s[0] != '.' && forall|i: int| 0 <= i < s.len() && i != k ==> is_repo_char(#[trigger] s[i]),
{
    let e = index_of(s, '/', 0);
    lemma_index_of(s, '/', 0);
    let (a, rest) = (s.subrange(0, e), s.subrange(e + 1, s.len() as int));
    let f = index_of(rest, '/', 0);
    lemma_index_of(rest, '/', 0);
    let p = split(s, '/');
    assert(e <= k);
    assert(p[0] == a && p == seq![a] + split(rest, '/'));
    let right = 0 < k < s.len() - 1 && s[0] != '.' && forall|i: int| 0 <= i < s.len() && i != k ==> is_repo_char(#[trigger] s[i]);
    assert(!is_repo_char('/'));
    if right {
        if e < k {
            assert(is_repo_char(s[e]));
        }
        if f < rest.len() {
            assert(rest[f] == s[e + 1 + f]);
            assert(is_repo_char(s[e + 1 + f]));
        }
        assert(split(rest, '/') == seq![rest]);
        assert(p[1] == rest);
        assert forall|i: int| 0 <= i < a.len() implies is_repo_char(#[trigger] a[i]) by {
            assert(a[i] == s[i]);
        }
        assert forall|i: int| 0 <= i < rest.len() implies is_repo_char(#[trigger] rest[i]) by {
            assert(rest[i] == s[e + 1 + i]);
        }
    }
    if is_repo_id(s) {
        if f < rest.len() {
            crate::report::laws::lemma_split_parts(rest.subrange(f + 1, rest.len() as int), '/');
            assert(p.len() >= 3);
        }
        assert(split(rest, '/') == seq![rest]);
        assert(p[1] == rest);
        if e < k {
            assert(rest[k - e - 1] == s[k]);
            assert(is_repo_char(rest[k - e - 1]));
        }
        assert forall|i: int| 0 <= i < s.len() && i != k implies is_repo_char(#[trigger] s[i]) by {
            if i < k {
                assert(a[i] == s[i]);
            } else {
                assert(rest[i - k - 1] == s[i]);
            }
        }
    }
}

/// What holds no slash names no repository.
pub proof fn no_slash_no_repository(s: Seq<char>)
    requires
        !s.contains('/'),
    ensures
        !is_repo_id(s),
{
    lemma_index_of(s, '/', 0);
    let e = index_of(s, '/', 0);
    if e < s.len() {
        assert(s[e] == '/');
    }
}

} // verus!
