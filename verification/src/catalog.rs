//! The model catalog.
//!
//! Entries are small JSON documents, one per model. A set of them is part of
//! the library, so that it works offline; documents from elsewhere replace
//! those with the same `id` and add to the rest.

pub mod laws;

use vstd::prelude::*;
use crate::catalog_data::embedded;
use crate::catalog_data::embedded_texts;
use crate::chars::same;
use crate::json;
use crate::json::{object_text, objects_at, slices, string_at, whole_at};
use crate::probe::storage::{extension_is, has_extension};
use crate::spec::{family_of_tag, model_views, quant_views, Attention, ModelSpec, ModelView, Moe, Quant, QuantFamily, QuantView};

verus! {

/// Where documents of the user's own are looked for.
pub const DATA_DIR: &'static str = "data/models";

/// A file of a catalog directory that is a document, by its name.
pub fn is_document(name: &str) -> (r: bool)
    ensures
        r == has_extension(name@, "json"@),
{
    extension_is(name, "json")
}

pub open spec fn small(s: Seq<char>, key: Seq<char>) -> Option<nat> {
    whole_at(s, key, u32::MAX as nat)
}

pub open spec fn large(s: Seq<char>, key: Seq<char>) -> Option<nat> {
    whole_at(s, key, u64::MAX as nat)
}

/// The attention geometry an object states. An unknown kind is a data error:
/// the wrong KV formula would be worse than no entry.
pub open spec fn attention_in(s: Seq<char>) -> Option<Attention> {
    match string_at(s, "kind"@) {
        None => None,
        Some(kind) => if kind == "gqa"@ {
            match (small(s, "n_kv_heads"@), small(s, "head_dim"@)) {
                (Some(h), Some(d)) => Some(Attention::Gqa { n_kv_heads: h as u32, head_dim: d as u32 }),
                _ => None,
            }
        } else if kind == "mla"@ {
            match (small(s, "kv_lora_rank"@), small(s, "rope_head_dim"@)) {
                (Some(k), Some(r)) => Some(Attention::Mla { kv_lora_rank: k as u32, rope_head_dim: r as u32 }),
                _ => None,
            }
        } else if kind == "swa"@ {
            match (small(s, "n_kv_heads"@), small(s, "head_dim"@), small(s, "window"@)) {
                (Some(h), Some(d), Some(w)) => Some(
                    Attention::Swa {
                        n_kv_heads: h as u32,
                        head_dim: d as u32,
                        window: w as u32,
                        global_every: match small(s, "global_every"@) {
                            Some(g) => g as u32,
                            None => 6,
                        },
                    },
                ),
                _ => None,
            }
        } else if kind == "hybrid"@ {
            match (
                small(s, "attn_layers"@),
                small(s, "n_kv_heads"@),
                small(s, "head_dim"@),
                large(s, "ssm_state_bytes"@),
            ) {
                (Some(a), Some(h), Some(d), Some(b)) => Some(
                    Attention::Hybrid {
                        attn_layers: a as u32,
                        n_kv_heads: h as u32,
                        head_dim: d as u32,
                        ssm_state_bytes: b as u64,
                    },
                ),
                _ => None,
            }
        } else {
            None
        },
    }
}

/// The expert geometry an object states, if it states all of it.
pub open spec fn moe_in(s: Option<Seq<char>>) -> Option<Moe> {
    match s {
        None => None,
        Some(o) => match (
            small(o, "n_expert"@),
            small(o, "n_active"@),
            large(o, "expert_params"@),
            large(o, "shared_params"@),
        ) {
            (Some(n), Some(a), Some(e), Some(p)) => Some(
                Moe { n_expert: n as u32, n_active: a as u32, expert_params: e as u64, shared_params: p as u64 },
            ),
            _ => None,
        },
    }
}

/// A quantisation, if the object names it and states its size.
pub open spec fn quant_in(s: Seq<char>) -> Option<QuantView> {
    match (string_at(s, "name"@), large(s, "bytes"@)) {
        (Some(name), Some(bytes)) => Some(
            QuantView {
                name,
                bytes,
                family: family_of_tag(
                    match string_at(s, "family"@) {
                        Some(f) => f,
                        None => Seq::empty(),
                    },
                ),
            },
        ),
        _ => None,
    }
}

/// The quantisations among the objects, in order.
pub open spec fn quants_in(objects: Seq<Seq<char>>) -> Seq<QuantView>
    decreases objects.len(),
{
    if objects.len() == 0 {
        Seq::empty()
    } else {
        let rest = quants_in(objects.drop_last());
        match quant_in(objects.last()) {
            Some(q) => rest.push(q),
            None => rest,
        }
    }
}

/// A trained context length that says something.
pub open spec fn trained_in(n: Option<nat>) -> Option<u32> {
    match n {
        Some(c) => if c > 0 {
            Some(c as u32)
        } else {
            None
        },
        None => None,
    }
}

/// The model a catalog document describes: nothing where a required field is
/// missing or no quantisation can be read.
pub open spec fn model_in(s: Seq<char>) -> Option<ModelView> {
    let quants = quants_in(objects_at(s, "quants"@));
    match (
        string_at(s, "id"@),
        small(s, "n_layers"@),
        small(s, "n_embd"@),
        small(s, "n_vocab"@),
        large(s, "params"@),
        object_text(s, "attention"@),
    ) {
        (Some(id), Some(n_layers), Some(n_embd), Some(n_vocab), Some(params), Some(a)) => match attention_in(a) {
            Some(attention) => if quants.len() > 0 {
                Some(
                    ModelView {
                        id,
                        n_layers,
                        n_embd,
                        n_vocab,
                        params,
                        attention,
                        moe: moe_in(object_text(s, "moe"@)),
                        n_ctx_train: trained_in(small(s, "n_ctx_train"@)),
                        quants,
                    },
                )
            } else {
                None
            },
            None => None,
        },
        _ => None,
    }
}

fn parse_attention(obj: &str) -> (r: Option<Attention>)
    ensures
        r == attention_in(obj@),
{
    let kind = match json::string(obj, "kind") {
        Some(k) => k,
        None => return None,
    };
    let k = kind.as_str();
    if same(k, "gqa") {
        match (json::whole32(obj, "n_kv_heads"), json::whole32(obj, "head_dim")) {
            (Some(n_kv_heads), Some(head_dim)) => Some(Attention::Gqa { n_kv_heads, head_dim }),
            _ => None,
        }
    } else if same(k, "mla") {
        match (json::whole32(obj, "kv_lora_rank"), json::whole32(obj, "rope_head_dim")) {
            (Some(kv_lora_rank), Some(rope_head_dim)) => Some(Attention::Mla { kv_lora_rank, rope_head_dim }),
            _ => None,
        }
    } else if same(k, "swa") {
        match (json::whole32(obj, "n_kv_heads"), json::whole32(obj, "head_dim"), json::whole32(obj, "window")) {
            (Some(n_kv_heads), Some(head_dim), Some(window)) => {
                let global_every: u32 = match json::whole32(obj, "global_every") {
                    Some(g) => g,
                    None => 6,
                };
                Some(Attention::Swa { n_kv_heads, head_dim, window, global_every })
            },
            _ => None,
        }
    } else if same(k, "hybrid") {
        match (
            json::whole32(obj, "attn_layers"),
            json::whole32(obj, "n_kv_heads"),
            json::whole32(obj, "head_dim"),
            json::whole(obj, "ssm_state_bytes"),
        ) {
            (Some(attn_layers), Some(n_kv_heads), Some(head_dim), Some(ssm_state_bytes)) => Some(
                Attention::Hybrid { attn_layers, n_kv_heads, head_dim, ssm_state_bytes },
            ),
            _ => None,
        }
    } else {
        None
    }
}

fn parse_moe(src: &str) -> (r: Option<Moe>)
    ensures
        r == moe_in(object_text(src@, "moe"@)),
{
    match json::object_at(src, "moe") {
        None => None,
        Some(o) => match (
            json::whole32(o, "n_expert"),
            json::whole32(o, "n_active"),
            json::whole(o, "expert_params"),
            json::whole(o, "shared_params"),
        ) {
            (Some(n_expert), Some(n_active), Some(expert_params), Some(shared_params)) => Some(
                Moe { n_expert, n_active, expert_params, shared_params },
            ),
            _ => None,
        },
    }
}

fn parse_quant(src: &str) -> (r: Option<Quant>)
    ensures
        match r {
            Some(q) => quant_in(src@) == Some(q@),
            None => quant_in(src@) is None,
        },
{
    let name = match json::string(src, "name") {
        Some(n) => n,
        None => return None,
    };
    let bytes: u64 = match json::whole(src, "bytes") {
        Some(b) => b,
        None => return None,
    };
    let tag = match json::string(src, "family") {
        Some(f) => f,
        None => String::new(),
    };
    let family = QuantFamily::from_data_tag(tag.as_str());
    Some(Quant { name, bytes, family })
}

fn parse_quants(src: &str) -> (r: Vec<Quant>)
    ensures
        quant_views(r@) == quants_in(objects_at(src@, "quants"@)),
{
    let objects = json::array_objects(src, "quants");
    let mut out: Vec<Quant> = Vec::new();
    let mut i: usize = 0;
    let ghost all = slices(objects@);
    assert(quant_views(out@) =~= quants_in(all.subrange(0, 0)));
    while i < objects.len()
        invariant
            i <= objects@.len(),
            all == slices(objects@),
            quant_views(out@) == quants_in(all.subrange(0, i as int)),
        decreases objects@.len() - i,
    {
        let ghost cur = all.subrange(0, i + 1);
        assert(cur.drop_last() =~= all.subrange(0, i as int));
        assert(cur.last() == objects@[i as int]@);
        let ghost prev = out@;
        if let Some(q) = parse_quant(objects[i]) {
            out.push(q);
            assert(quant_views(out@) =~= quant_views(prev).push(q@));
        }
        i += 1;
    }
    assert(all.subrange(0, i as int) =~= all);
    out
}

/// Parse one catalog file. Returns `None` on any missing required field.
pub fn parse_model(src: &str) -> (r: Option<ModelSpec>)
    ensures
        match r {
            Some(m) => model_in(src@) == Some(m@),
            None => model_in(src@) is None,
        },
{
    let id = match json::string(src, "id") {
        Some(x) => x,
        None => return None,
    };
    let n_layers: u32 = match json::whole32(src, "n_layers") {
        Some(x) => x,
        None => return None,
    };
    let n_embd: u32 = match json::whole32(src, "n_embd") {
        Some(x) => x,
        None => return None,
    };
    let n_vocab: u32 = match json::whole32(src, "n_vocab") {
        Some(x) => x,
        None => return None,
    };
    let params: u64 = match json::whole(src, "params") {
        Some(x) => x,
        None => return None,
    };
    let object = match json::object_at(src, "attention") {
        Some(x) => x,
        None => return None,
    };
    let attention = match parse_attention(object) {
        Some(x) => x,
        None => return None,
    };
    let n_ctx_train = match json::whole32(src, "n_ctx_train") {
        Some(c) => if c > 0 {
            Some(c)
        } else {
            None
        },
        None => None,
    };
    let quants = parse_quants(src);
    assert(quant_views(quants@).len() == quants@.len());
    // A model with no parseable quantisation cannot be predicted for.
    if quants.len() == 0 {
        return None;
    }
    let moe = parse_moe(src);
    Some(ModelSpec { id, n_layers, n_embd, n_vocab, params, attention, moe, n_ctx_train, quants })
}

// ------------------------------------------------------------------- sorting

/// Where a model with `params` parameters goes among models sorted by size:
/// behind all that are no larger.
pub open spec fn place(v: Seq<ModelView>, params: nat) -> int
    decreases v.len(),
{
    if v.len() > 0 && v.last().params > params {
        place(v.drop_last(), params)
    } else {
        v.len() as int
    }
}

/// The models by size, smallest first, those of one size as they came.
pub open spec fn by_size(v: Seq<ModelView>) -> Seq<ModelView>
    decreases v.len(),
{
    if v.len() == 0 {
        v
    } else {
        let rest = by_size(v.drop_last());
        rest.insert(place(rest, v.last().params), v.last())
    }
}

pub proof fn lemma_place(v: Seq<ModelView>, params: nat)
    ensures
        0 <= place(v, params) <= v.len(),
        place(v, params) > 0 ==> v[place(v, params) - 1].params <= params,
        forall|i: int| place(v, params) <= i < v.len() ==> (#[trigger] v[i]).params > params,
    decreases v.len(),
{
    if v.len() > 0 && v.last().params > params {
        lemma_place(v.drop_last(), params);
        let p = place(v, params);
        assert forall|i: int| p <= i < v.len() implies (#[trigger] v[i]).params > params by {
            if i < v.len() - 1 {
                assert(v.drop_last()[i] == v[i]);
            }
        }
        if p > 0 {
            assert(v.drop_last()[p - 1] == v[p - 1]);
        }
    }
}

/// Models listed by size: no model stands before a smaller one, and sorting
/// neither adds nor drops one.
pub proof fn by_size_is_sorted(v: Seq<ModelView>)
    ensures
        by_size(v).len() == v.len(),
        by_size(v).to_multiset() == v.to_multiset(),
        forall|i: int, j: int| 0 <= i < j < v.len() ==> (#[trigger] by_size(v)[i]).params <= (#[trigger] by_size(
            v,
        )[j]).params,
    decreases v.len(),
{
    broadcast use vstd::seq_lib::group_to_multiset_ensures;

    if v.len() > 0 {
        let rest = by_size(v.drop_last());
        by_size_is_sorted(v.drop_last());
        let p = place(rest, v.last().params);
        lemma_place(rest, v.last().params);
        let out = rest.insert(p, v.last());
        assert(v =~= v.drop_last().push(v.last()));
        vstd::seq_lib::to_multiset_insert(rest, p, v.last());
        assert forall|i: int, j: int| 0 <= i < j < v.len() implies (#[trigger] out[i]).params <= (#[trigger] out[j]).params by {
            let x = if i < p { rest[i] } else if i == p { v.last() } else { rest[i - 1] };
            let y = if j < p { rest[j] } else if j == p { v.last() } else { rest[j - 1] };
            assert(out[i] == x && out[j] == y);
            if i < p && j == p {
                assert(rest[i].params <= rest[p - 1].params);
            }
        }
    }
}

fn insert_by_size(v: &mut Vec<ModelSpec>, m: ModelSpec)
    ensures
        model_views(final(v)@) == model_views(old(v)@).insert(place(model_views(old(v)@), m@.params), m@),
{
    let ghost views = model_views(v@);
    let mut p: usize = v.len();
    assert(views.subrange(0, views.len() as int) =~= views);
    while p > 0 && v[p - 1].params > m.params
        invariant
            p <= v@.len(),
            v@ == old(v)@,
            views == model_views(v@),
            place(views.subrange(0, p as int), m@.params) == place(views, m@.params),
        decreases p,
    {
        assert(views.subrange(0, p as int).drop_last() =~= views.subrange(0, p - 1));
        assert(views.subrange(0, p as int).last() == v@[p - 1]@);
        p -= 1;
    }
    if p > 0 {
        assert(views.subrange(0, p as int).last() == v@[p - 1]@);
    }
    assert(place(views, m@.params) == p);
    v.insert(p, m);
    assert(model_views(v@) =~= views.insert(p as int, m@));
}

fn sort_by_size(v: Vec<ModelSpec>) -> (r: Vec<ModelSpec>)
    ensures
        model_views(r@) == by_size(model_views(v@)),
{
    let ghost all = model_views(v@);
    let mut left = v;
    let mut taken: Vec<ModelSpec> = Vec::new();
    // Taken from the back, so that they can be put in from the front.
    while left.len() > 0
        invariant
            left@.len() + taken@.len() == all.len(),
            model_views(left@) == all.subrange(0, left@.len() as int),
            forall|i: int| 0 <= i < taken@.len() ==> (#[trigger] taken@[i])@ == all[all.len() - 1 - i],
        decreases left@.len(),
    {
        let ghost prev = left@;
        if let Some(m) = left.pop() {
            assert(model_views(prev)[prev.len() - 1] == m@);
            assert(model_views(left@) =~= all.subrange(0, left@.len() as int)) by {
                assert forall|i: int| 0 <= i < left@.len() implies model_views(left@)[i] == all[i] by {
                    assert(model_views(prev)[i] == prev[i]@);
                }
            }
            taken.push(m);
        }
    }
    let mut out: Vec<ModelSpec> = Vec::new();
    assert(model_views(out@) =~= by_size(all.subrange(0, 0)));
    while taken.len() > 0
        invariant
            taken@.len() <= all.len(),
            forall|i: int| 0 <= i < taken@.len() ==> (#[trigger] taken@[i])@ == all[all.len() - 1 - i],
            model_views(out@) == by_size(all.subrange(0, all.len() - taken@.len())),
        decreases taken@.len(),
    {
        let ghost k = all.len() - taken@.len();
        if let Some(m) = taken.pop() {
            assert(m@ == all[k]);
            assert(all.subrange(0, k + 1).drop_last() =~= all.subrange(0, k));
            assert(all.subrange(0, k + 1).last() == m@);
            insert_by_size(&mut out, m);
        }
    }
    assert(all.subrange(0, all.len() as int) =~= all);
    out
}

// ------------------------------------------------------------------- loading

/// The models of the documents that describe one.
pub open spec fn models_in(docs: Seq<Seq<char>>) -> Seq<ModelView>
    decreases docs.len(),
{
    if docs.len() == 0 {
        Seq::empty()
    } else {
        let rest = models_in(docs.drop_last());
        match model_in(docs.last()) {
            Some(m) => rest.push(m),
            None => rest,
        }
    }
}

/// The first position of the model called `id`.
pub open spec fn position_of(v: Seq<ModelView>, id: Seq<char>) -> Option<int>
    decreases v.len(),
{
    if v.len() == 0 {
        None
    } else {
        match position_of(v.drop_last(), id) {
            Some(i) => Some(i),
            None => if v.last().id == id {
                Some(v.len() - 1)
            } else {
                None
            },
        }
    }
}

/// `m` in the place of the model of the same name, or behind the others.
pub open spec fn put(v: Seq<ModelView>, m: ModelView) -> Seq<ModelView> {
    match position_of(v, m.id) {
        Some(i) => v.update(i, m),
        None => v.push(m),
    }
}

/// The models with the first documents put in, one after the other.
pub open spec fn overridden(base: Seq<ModelView>, docs: Seq<Seq<char>>) -> Seq<ModelView>
    decreases docs.len(),
{
    if docs.len() == 0 {
        base
    } else {
        let rest = overridden(base, docs.drop_last());
        match model_in(docs.last()) {
            Some(m) => put(rest, m),
            None => rest,
        }
    }
}

/// The positions of the documents that describe no model.
pub open spec fn unreadable(docs: Seq<Seq<char>>) -> Seq<int>
    decreases docs.len(),
{
    if docs.len() == 0 {
        Seq::empty()
    } else {
        let rest = unreadable(docs.drop_last());
        if model_in(docs.last()) is None {
            rest.push(docs.len() - 1)
        } else {
            rest
        }
    }
}

fn embedded_models() -> (r: Vec<ModelSpec>)
    ensures
        model_views(r@) == models_in(embedded_texts()),
{
    let docs = embedded();
    let ghost all = slices(docs@);
    let mut out: Vec<ModelSpec> = Vec::new();
    let mut i: usize = 0;
    assert(model_views(out@) =~= models_in(all.subrange(0, 0)));
    while i < docs.len()
        invariant
            i <= docs@.len(),
            all == slices(docs@),
            model_views(out@) == models_in(all.subrange(0, i as int)),
        decreases docs@.len() - i,
    {
        let ghost cur = all.subrange(0, i + 1);
        assert(cur.drop_last() =~= all.subrange(0, i as int));
        assert(cur.last() == docs@[i as int]@);
        let ghost prev = out@;
        if let Some(m) = parse_model(docs[i]) {
            out.push(m);
            assert(model_views(out@) =~= model_views(prev).push(m@));
        }
        i += 1;
    }
    assert(all.subrange(0, i as int) =~= all);
    out
}

/// The compiled-in set, smallest model first.
pub fn builtin() -> (r: Vec<ModelSpec>)
    ensures
        model_views(r@) == by_size(models_in(embedded_texts())),
{
    sort_by_size(embedded_models())
}

/// A catalog, and which of the documents it was given could not be read.
pub struct Loaded {
    pub models: Vec<ModelSpec>,
    pub skipped: Vec<usize>,
}

pub open spec fn widened(v: Seq<usize>) -> Seq<int> {
    v.map_values(|i: usize| i as int)
}

fn find_id(v: &Vec<ModelSpec>, id: &str) -> (r: Option<usize>)
    ensures
        match r {
            Some(i) => position_of(model_views(v@), id@) == Some(i as int) && i < v@.len(),
            None => position_of(model_views(v@), id@) is None,
        },
{
    let ghost views = model_views(v@);
    let mut i: usize = 0;
    while i < v.len()
        invariant
            i <= v@.len(),
            views == model_views(v@),
            position_of(views.subrange(0, i as int), id@) is None,
        decreases v@.len() - i,
    {
        assert(views.subrange(0, i + 1).drop_last() =~= views.subrange(0, i as int));
        assert(views.subrange(0, i + 1).last() == v@[i as int]@);
        if same(v[i].id.as_str(), id) {
            proof {
                lemma_position_stays(views, i + 1, id@);
            }
            return Some(i);
        }
        i += 1;
    }
    assert(views.subrange(0, i as int) =~= views);
    None
}

proof fn lemma_position_stays(v: Seq<ModelView>, k: int, id: Seq<char>)
    requires
        0 <= k <= v.len(),
        position_of(v.subrange(0, k), id) is Some,
    ensures
        position_of(v, id) == position_of(v.subrange(0, k), id),
    decreases v.len() - k,
{
    if k < v.len() {
        assert(v.drop_last().subrange(0, k) =~= v.subrange(0, k));
        lemma_position_stays(v.drop_last(), k, id);
    } else {
        assert(v.subrange(0, k) =~= v);
    }
}

/// Every model in the embedded catalog, with the given documents put in.
///
/// A document with the same `id` replaces the embedded entry, so a contributor
/// can work on an entry without rebuilding.
pub fn load(docs: &Vec<String>) -> (r: Loaded)
    ensures
        model_views(r.models@) == by_size(overridden(models_in(embedded_texts()), crate::chars::texts(docs@))),
        widened(r.skipped@) == unreadable(crate::chars::texts(docs@)),
{
    let ghost base = models_in(embedded_texts());
    let ghost all = crate::chars::texts(docs@);
    let mut models = embedded_models();
    let mut skipped: Vec<usize> = Vec::new();
    let mut i: usize = 0;
    assert(all.subrange(0, 0) =~= Seq::<Seq<char>>::empty());
    assert(widened(skipped@) =~= unreadable(all.subrange(0, 0)));
    while i < docs.len()
        invariant
            i <= docs@.len(),
            all == crate::chars::texts(docs@),
            model_views(models@) == overridden(base, all.subrange(0, i as int)),
            widened(skipped@) == unreadable(all.subrange(0, i as int)),
        decreases docs@.len() - i,
    {
        let ghost cur = all.subrange(0, i + 1);
        assert(cur.drop_last() =~= all.subrange(0, i as int));
        assert(cur.last() == docs@[i as int]@);
        let ghost before = models@;
        let ghost skipped_before = skipped@;
        match parse_model(docs[i].as_str()) {
            Some(m) => {
                let ghost view = m@;
                match find_id(&models, m.id.as_str()) {
                    Some(k) => {
                        models.set(k, m);
                        assert(model_views(models@) =~= model_views(before).update(k as int, view));
                    },
                    None => {
                        models.push(m);
                        assert(model_views(models@) =~= model_views(before).push(view));
                    },
                }
            },
            None => {
                skipped.push(i);
                assert(widened(skipped@) =~= widened(skipped_before).push(i as int));
            },
        }
        i += 1;
    }
    assert(all.subrange(0, i as int) =~= all);
    Loaded { models: sort_by_size(models), skipped }
}

/// Whatever documents are put in, a name stands for one model where it did
/// before.
pub proof fn put_keeps_names_unique(v: Seq<ModelView>, m: ModelView)
    requires
        forall|i: int, j: int| 0 <= i < j < v.len() ==> (#[trigger] v[i]).id != (#[trigger] v[j]).id,
    ensures
        forall|i: int, j: int| 0 <= i < j < put(v, m).len() ==> (#[trigger] put(v, m)[i]).id != (#[trigger] put(v, m)[j]).id,
{
    lemma_position(v, m.id);
}

pub proof fn lemma_position(v: Seq<ModelView>, id: Seq<char>)
    ensures
        match position_of(v, id) {
            Some(i) => 0 <= i < v.len() && v[i].id == id,
            None => forall|i: int| 0 <= i < v.len() ==> (#[trigger] v[i]).id != id,
        },
    decreases v.len(),
{
    if v.len() > 0 {
        lemma_position(v.drop_last(), id);
        if position_of(v, id) is None {
            assert forall|i: int| 0 <= i < v.len() implies (#[trigger] v[i]).id != id by {
                if i < v.len() - 1 {
                    assert(v.drop_last()[i] == v[i]);
                }
            }
        }
    }
}

} // verus!
