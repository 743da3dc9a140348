//! `zc check <hf-repo-id>`: will this model, the one nobody has catalogued, fit
//! on this machine?
//!
//! Memory is arithmetic over numbers the repository states. Decode speed is
//! not answered: it needs the byte count of a quantised file that lives in
//! another repository.

pub mod laws;

use vstd::prelude::*;
use crate::chars::{concat2, concat3, copy, dec, decimal, join, joined, mentions, contains, same, split, split_on, chars_of, texts, is_alnum};
use crate::double::{fixed_decimal, fixed_text, nearest, nearest_shifted, pow2, round_to_double, rounded, Double};
use crate::fit::opt_text;
use crate::json;
use crate::json::{boolean_at, object_text, whole_at};
use crate::kv::{KvPrecision, CONTEXT_LIMIT};
use crate::predict::{minus, usable_context};
use crate::report::text::{kv_label, kv_label_text};
use crate::report::{context_text, fmt_context};
use crate::spec::{Attention, ModelSpec, ModelView};

verus! {

// ------------------------------------------------------------------ repository

/// A name of letters, digits, dashes, underscores and dots, and not empty.
pub open spec fn is_repo_part(p: Seq<char>) -> bool {
    p.len() > 0 && forall|i: int| 0 <= i < p.len() ==> is_repo_char(#[trigger] p[i])
}

pub open spec fn is_repo_char(c: char) -> bool {
    is_alnum(c) || c == '-' || c == '_' || c == '.'
}

/// Two names and one slash, not starting with a dot.
pub open spec fn is_repo_id(s: Seq<char>) -> bool {
    let p = split(s, '/');
    p.len() == 2 && is_repo_part(p[0]) && is_repo_part(p[1]) && s[0] != '.'
}

fn repo_part(p: &str) -> (r: bool)
    ensures
        r == is_repo_part(p@),
{
    let v = chars_of(p);
    if v.len() == 0 {
        return false;
    }
    let mut i: usize = 0;
    while i < v.len()
        invariant
            i <= v@.len(),
            v@ == p@,
            forall|j: int| 0 <= j < i ==> is_repo_char(#[trigger] v@[j]),
        decreases v@.len() - i,
    {
        let c = v[i];
        if !(('0' <= c && c <= '9') || ('a' <= c && c <= 'z') || ('A' <= c && c <= 'Z') || c == '-' || c == '_' || c == '.') {
            return false;
        }
        i += 1;
    }
    true
}

/// Does this look like a repository id rather than a flag or a model name?
///
/// Deliberately strict: a wrong guess turns a typo into a network request.
pub fn looks_like_repo_id(s: &str) -> (r: bool)
    ensures
        r == is_repo_id(s@),
{
    let p = split_on(s, '/');
    assert(texts(p@).len() == p@.len());
    if p.len() != 2 {
        return false;
    }
    assert(texts(p@)[0] == p@[0]@ && texts(p@)[1] == p@[1]@);
    if !repo_part(p[0].as_str()) || !repo_part(p[1].as_str()) {
        return false;
    }
    let v = chars_of(s);
    if v.len() == 0 {
        proof {
            // An empty text has one part, and it is empty.
            assert(split(s@, '/') == seq![s@]);
        }
        return false;
    }
    v[0] != '.'
}

/// Where a repository's parameter counts and its configuration are read.
pub fn repo_urls(id: &str) -> (r: (String, String))
    ensures
        r.0@ == "https://huggingface.co/api/models/"@ + id@,
        r.1@ == "https://huggingface.co/"@ + id@ + "/raw/main/config.json"@,
{
    (
        concat2("https://huggingface.co/api/models/", id),
        concat3("https://huggingface.co/", id, "/raw/main/config.json"),
    )
}

/// Why a page could not be read, by what the fetching program said. The same
/// answer stands for gated, private and missing repositories.
pub open spec fn fetch_error(url: Seq<char>, why: Seq<char>) -> Seq<char> {
    if contains(why, "401"@) || contains(why, "403"@) {
        url
            + "\n  returned 401. Hugging Face answers the same for a gated repo, a\n  private one, and one that does not exist. If it is gated (Llama and\n  Gemma are), accept its licence on huggingface.co -- zc holds no token\n  and asks for none."@
    } else if contains(why, "404"@) {
        "no such repo, or it has no config.json:\n  "@ + url
    } else if why.len() == 0 {
        url + " could not be read"@
    } else {
        why
    }
}

pub fn fetch_failure(url: &str, why: &str) -> (r: String)
    ensures
        r@ == fetch_error(url@, why@),
{
    if mentions(why, "401") || mentions(why, "403") {
        concat2(
            url,
            "\n  returned 401. Hugging Face answers the same for a gated repo, a\n  private one, and one that does not exist. If it is gated (Llama and\n  Gemma are), accept its licence on huggingface.co -- zc holds no token\n  and asks for none.",
        )
    } else if mentions(why, "404") {
        concat2("no such repo, or it has no config.json:\n  ", url)
    } else if why.unicode_len() == 0 {
        concat2(url, " could not be read")
    } else {
        copy(why)
    }
}

// -------------------------------------------------------------------- geometry

pub open spec fn cfg(s: Seq<char>, key: Seq<char>) -> Option<nat> {
    whole_at(s, key, u32::MAX as nat)
}

pub open spec fn or(n: Option<nat>, other: nat) -> nat {
    match n {
        Some(x) => x,
        None => other,
    }
}

/// The width of a head: stated, or the hidden size divided among the heads.
pub open spec fn head_width(config: Seq<char>, n_embd: nat, n_heads: nat) -> nat {
    match cfg(config, "head_dim"@) {
        Some(d) => d,
        None => if n_heads > 0 {
            n_embd / n_heads
        } else {
            0
        },
    }
}

/// The sliding window, where one is stated and in use: a window beside
/// `use_sliding_window: false` is common, and believing it would understate
/// memory badly.
pub open spec fn window_in(config: Seq<char>) -> Option<nat> {
    match cfg(config, "sliding_window"@) {
        Some(w) => if w > 0 && boolean_at(config, "use_sliding_window"@) != Some(false) {
            Some(w)
        } else {
            None
        },
        None => None,
    }
}

pub open spec fn attention_of(config: Seq<char>, kv_heads: nat, head_dim: nat) -> Attention {
    match window_in(config) {
        Some(w) => {
            let every = or(cfg(config, "sliding_window_pattern"@), 1);
            Attention::Swa {
                n_kv_heads: kv_heads as u32,
                head_dim: head_dim as u32,
                window: w as u32,
                global_every: (if every >= 1 { every } else { 1 }) as u32,
            }
        },
        None => Attention::Gqa { n_kv_heads: kv_heads as u32, head_dim: head_dim as u32 },
    }
}

/// What the configuration says of the architecture.
pub struct Geometry {
    pub n_layers: nat,
    pub n_embd: nat,
    pub n_vocab: nat,
    pub attention: Attention,
    pub n_ctx_train: Option<u32>,
}

/// The architecture, or what the configuration lacks.
pub open spec fn geometry_in(config: Seq<char>) -> Result<Geometry, Seq<char>> {
    match cfg(config, "num_hidden_layers"@) {
        None => Err("config.json has no num_hidden_layers — not a transformer this can read"@),
        Some(n_layers) => match cfg(config, "hidden_size"@) {
            None => Err("config.json has no hidden_size"@),
            Some(n_embd) => match cfg(config, "vocab_size"@) {
                None => Err("config.json has no vocab_size"@),
                Some(n_vocab) => {
                    let n_heads = or(cfg(config, "num_attention_heads"@), 0);
                    let kv_heads = or(cfg(config, "num_key_value_heads"@), n_heads);
                    let head_dim = head_width(config, n_embd, n_heads);
                    if kv_heads == 0 {
                        Err("config.json states no attention head counts, so KV size is not derivable"@)
                    } else if head_dim == 0 {
                        Err("config.json states no head_dim and none can be derived"@)
                    } else {
                        Ok(
                            Geometry {
                                n_layers,
                                n_embd,
                                n_vocab,
                                attention: attention_of(config, kv_heads, head_dim),
                                n_ctx_train: crate::catalog::trained_in(cfg(config, "max_position_embeddings"@)),
                            },
                        )
                    }
                },
            },
        },
    }
}

struct Shape {
    n_layers: u32,
    n_embd: u32,
    n_vocab: u32,
    attention: Attention,
    n_ctx_train: Option<u32>,
}

spec fn shape_view(s: Shape) -> Geometry {
    Geometry {
        n_layers: s.n_layers as nat,
        n_embd: s.n_embd as nat,
        n_vocab: s.n_vocab as nat,
        attention: s.attention,
        n_ctx_train: s.n_ctx_train,
    }
}

fn number_or(config: &str, key: &str, other: u32) -> (r: u32)
    ensures
        r as nat == or(cfg(config@, key@), other as nat),
{
    match json::whole32(config, key) {
        Some(n) => n,
        None => other,
    }
}

fn read_attention(config: &str, n_kv_heads: u32, head_dim: u32) -> (r: Attention)
    ensures
        r == attention_of(config@, n_kv_heads as nat, head_dim as nat),
{
    let window = match json::whole32(config, "sliding_window") {
        Some(w) => if w > 0 {
            let on = match json::boolean(config, "use_sliding_window") {
                Some(b) => b,
                None => true,
            };
            if on {
                Some(w)
            } else {
                None
            }
        } else {
            None
        },
        None => None,
    };
    match window {
        Some(window) => {
            let every: u32 = number_or(config, "sliding_window_pattern", 1);
            Attention::Swa { n_kv_heads, head_dim, window, global_every: if every >= 1 { every } else { 1 } }
        },
        None => Attention::Gqa { n_kv_heads, head_dim },
    }
}

fn read_geometry(config: &str) -> (r: Result<Shape, String>)
    ensures
        match r {
            Ok(s) => geometry_in(config@) == Ok::<Geometry, Seq<char>>(shape_view(s)),
            Err(e) => geometry_in(config@) == Err::<Geometry, Seq<char>>(e@),
        },
{
    let n_layers: u32 = match json::whole32(config, "num_hidden_layers") {
        Some(n) => n,
        None => return Err(copy("config.json has no num_hidden_layers — not a transformer this can read")),
    };
    let n_embd: u32 = match json::whole32(config, "hidden_size") {
        Some(n) => n,
        None => return Err(copy("config.json has no hidden_size")),
    };
    let n_vocab: u32 = match json::whole32(config, "vocab_size") {
        Some(n) => n,
        None => return Err(copy("config.json has no vocab_size")),
    };
    let n_heads: u32 = number_or(config, "num_attention_heads", 0);
    let n_kv_heads: u32 = number_or(config, "num_key_value_heads", n_heads);
    if n_kv_heads == 0 {
        return Err(copy("config.json states no attention head counts, so KV size is not derivable"));
    }
    let head_dim: u32 = match json::whole32(config, "head_dim") {
        Some(d) => d,
        None => if n_heads > 0 {
            n_embd / n_heads
        } else {
            0
        },
    };
    proof {
        if n_heads > 0 {
            vstd::arithmetic::div_mod::lemma_div_nonincreasing(n_embd as int, n_heads as int);
        }
    }
    if head_dim == 0 {
        return Err(copy("config.json states no head_dim and none can be derived"));
    }
    let attention = read_attention(config, n_kv_heads, head_dim);
    let n_ctx_train = match json::whole32(config, "max_position_embeddings") {
        Some(c) => if c > 0 {
            Some(c)
        } else {
            None
        },
        None => None,
    };
    Ok(Shape { n_layers, n_embd, n_vocab, attention, n_ctx_train })
}

// --------------------------------------------------------------------- weights

/// Bytes per element for the dtypes safetensors reports.
pub open spec fn dtype_size(tag: Seq<char>) -> Option<nat> {
    if tag == "F64"@ || tag == "I64"@ || tag == "U64"@ {
        Some(8)
    } else if tag == "F32"@ || tag == "I32"@ || tag == "U32"@ {
        Some(4)
    } else if tag == "F16"@ || tag == "BF16"@ || tag == "I16"@ || tag == "U16"@ {
        Some(2)
    } else if tag == "F8_E4M3"@ || tag == "F8_E5M2"@ || tag == "I8"@ || tag == "U8"@ || tag == "BOOL"@ {
        Some(1)
    } else {
        None
    }
}

/// Anything unrecognised makes the total unknown rather than approximate.
pub fn dtype_bytes(tag: &str) -> (r: Option<u64>)
    ensures
        match r {
            Some(n) => dtype_size(tag@) == Some(n as nat),
            None => dtype_size(tag@) is None,
        },
{
    if same(tag, "F64") || same(tag, "I64") || same(tag, "U64") {
        Some(8)
    } else if same(tag, "F32") || same(tag, "I32") || same(tag, "U32") {
        Some(4)
    } else if same(tag, "F16") || same(tag, "BF16") || same(tag, "I16") || same(tag, "U16") {
        Some(2)
    } else if same(tag, "F8_E4M3") || same(tag, "F8_E5M2") || same(tag, "I8") || same(tag, "U8") || same(tag, "BOOL") {
        Some(1)
    } else {
        None
    }
}

/// The dtypes that are recognised, in the order they are summed.
pub open spec fn known_dtypes() -> Seq<Seq<char>> {
    seq![
        "F64"@,
        "F32"@,
        "F16"@,
        "BF16"@,
        "F8_E4M3"@,
        "F8_E5M2"@,
        "I64"@,
        "I32"@,
        "I16"@,
        "I8"@,
        "U8"@,
        "BOOL"@,
        "U64"@,
        "U32"@,
        "U16"@,
    ]
}

fn dtypes() -> (r: Vec<&'static str>)
    ensures
        json::slices(r@) == known_dtypes(),
{
    let v: Vec<&'static str> = vec![
        "F64", "F32", "F16", "BF16", "F8_E4M3", "F8_E5M2", "I64", "I32", "I16", "I8", "U8", "BOOL", "U64", "U32", "U16",
    ];
    assert(json::slices(v@) =~= known_dtypes());
    v
}

/// The weights summed so far: their bytes and elements, and the dtypes with the
/// most elements first, those with as many as they came.
pub struct Weights {
    pub bytes: nat,
    pub params: nat,
    pub seen: Seq<(Seq<char>, nat)>,
}

/// Where a dtype with `n` elements goes: behind all with no fewer.
pub open spec fn share_place(seen: Seq<(Seq<char>, nat)>, n: nat) -> int
    decreases seen.len(),
{
    if seen.len() > 0 && seen.last().1 < n {
        share_place(seen.drop_last(), n)
    } else {
        seen.len() as int
    }
}

pub open spec fn with_dtype(w: Weights, object: Seq<char>, tag: Seq<char>) -> Weights {
    match whole_at(object, tag, u64::MAX as nat) {
        Some(n) => if n == 0 {
            w
        } else {
            Weights {
                bytes: w.bytes + n * dtype_size(tag)->0,
                params: w.params + n,
                seen: w.seen.insert(share_place(w.seen, n), (tag, n)),
            }
        },
        None => w,
    }
}

pub open spec fn weights_in(object: Seq<char>, tags: Seq<Seq<char>>) -> Weights
    decreases tags.len(),
{
    if tags.len() == 0 {
        Weights { bytes: 0, params: 0, seen: Seq::empty() }
    } else {
        with_dtype(weights_in(object, tags.drop_last()), object, tags.last())
    }
}

pub open spec fn tag_texts(seen: Seq<(Seq<char>, nat)>) -> Seq<Seq<char>> {
    seen.map_values(|p: (Seq<char>, nat)| p.0)
}

struct Seen {
    tag: &'static str,
    n: u64,
}

spec fn seen_views(v: Seq<Seen>) -> Seq<(Seq<char>, nat)> {
    v.map_values(|s: Seen| (s.tag@, s.n as nat))
}

fn insert_seen(v: &mut Vec<Seen>, s: Seen)
    ensures
        seen_views(final(v)@) == seen_views(old(v)@).insert(
            share_place(seen_views(old(v)@), s.n as nat),
            (s.tag@, s.n as nat),
        ),
{
    let ghost views = seen_views(v@);
    let mut p: usize = v.len();
    assert(views.subrange(0, views.len() as int) =~= views);
    while p > 0 && v[p - 1].n < s.n
        invariant
            p <= v@.len(),
            v@ == old(v)@,
            views == seen_views(v@),
            share_place(views.subrange(0, p as int), s.n as nat) == share_place(views, s.n as nat),
        decreases p,
    {
        assert(views.subrange(0, p as int).drop_last() =~= views.subrange(0, p - 1));
        assert(views.subrange(0, p as int).last() == (v@[p - 1].tag@, v@[p - 1].n as nat));
        p -= 1;
    }
    if p > 0 {
        assert(views.subrange(0, p as int).last() == (v@[p - 1].tag@, v@[p - 1].n as nat));
    }
    assert(share_place(views, s.n as nat) == p);
    let ghost new = (s.tag@, s.n as nat);
    v.insert(p, s);
    assert(seen_views(v@) =~= views.insert(p as int, new));
}

/// Why the weights cannot be summed, if they cannot: a dtype that is not
/// recognised, or one without a count. A total that leaves a tensor out is
/// worse than none.
pub open spec fn uncounted(object: Seq<char>, keys: Seq<Seq<char>>) -> Option<Seq<char>>
    decreases keys.len(),
{
    if keys.len() == 0 {
        None
    } else {
        match uncounted(object, keys.drop_last()) {
            Some(e) => Some(e),
            None => if dtype_size(keys.last()) is None {
                Some("unrecognised dtype "@ + keys.last())
            } else if whole_at(object, keys.last(), u64::MAX as nat) is None {
                Some("the API reports no count for dtype "@ + keys.last())
            } else {
                None
            },
        }
    }
}

fn find_uncounted(object: &str) -> (r: Option<String>)
    ensures
        opt_text(r) == uncounted(object@, json::keys_from(object@, 0)),
{
    let keys = json::keys(object);
    let ghost all = texts(keys@);
    let mut i: usize = 0;
    assert(all.subrange(0, 0) =~= Seq::<Seq<char>>::empty());
    while i < keys.len()
        invariant
            i <= keys@.len(),
            all == texts(keys@),
            all == json::keys_from(object@, 0),
            uncounted(object@, all.subrange(0, i as int)) is None,
        decreases keys@.len() - i,
    {
        let ghost cur = all.subrange(0, i + 1);
        assert(cur.drop_last() =~= all.subrange(0, i as int));
        assert(cur.last() == keys@[i as int]@);
        let tag = keys[i].as_str();
        let why = if dtype_bytes(tag).is_none() {
            Some(concat2("unrecognised dtype ", tag))
        } else if json::whole(object, tag).is_none() {
            Some(concat2("the API reports no count for dtype ", tag))
        } else {
            None
        };
        if why.is_some() {
            proof {
                lemma_uncounted_stays(object@, all, i + 1);
            }
            return why;
        }
        i += 1;
    }
    assert(all.subrange(0, i as int) =~= all);
    None
}

proof fn lemma_uncounted_stays(object: Seq<char>, keys: Seq<Seq<char>>, n: int)
    requires
        0 <= n <= keys.len(),
        uncounted(object, keys.subrange(0, n)) is Some,
    ensures
        uncounted(object, keys) == uncounted(object, keys.subrange(0, n)),
    decreases keys.len(),
{
    if n == keys.len() {
        assert(keys.subrange(0, n) =~= keys);
    } else {
        assert(keys.drop_last().subrange(0, n) =~= keys.subrange(0, n));
        lemma_uncounted_stays(object, keys.drop_last(), n);
    }
}

struct Summed {
    bytes: u128,
    params: u128,
    seen: Vec<Seen>,
}

spec fn summed_view(s: Summed) -> Weights {
    Weights { bytes: s.bytes as nat, params: s.params as nat, seen: seen_views(s.seen@) }
}

fn sum_weights(object: &str) -> (r: Summed)
    ensures
        summed_view(r) == weights_in(object@, known_dtypes()),
        r.params <= r.bytes,
{
    let tags = dtypes();
    let ghost all = json::slices(tags@);
    let mut bytes: u128 = 0;
    let mut params: u128 = 0;
    let mut seen: Vec<Seen> = Vec::new();
    let mut i: usize = 0;
    assert(seen_views(seen@) =~= Seq::<(Seq<char>, nat)>::empty());
    assert(all.subrange(0, 0) =~= Seq::<Seq<char>>::empty());
    proof {
        lemma_known_dtypes_have_sizes();
    }
    while i < tags.len()
        invariant
            i <= tags@.len(),
            tags@.len() == 15,
            all == json::slices(tags@),
            all == known_dtypes(),
            forall|k: int| 0 <= k < known_dtypes().len() ==> dtype_size(#[trigger] known_dtypes()[k]) is Some,
            params <= bytes <= i * 0x8_0000_0000_0000_0000,
            (Weights { bytes: bytes as nat, params: params as nat, seen: seen_views(seen@) }) == weights_in(
                object@,
                all.subrange(0, i as int),
            ),
        decreases tags@.len() - i,
    {
        assert(all.subrange(0, i + 1).drop_last() =~= all.subrange(0, i as int));
        assert(all.subrange(0, i + 1).last() == tags@[i as int]@);
        assert(all[i as int] == tags@[i as int]@);
        assert(dtype_size(known_dtypes()[i as int]) is Some);
        let tag = tags[i];
        if let Some(n) = json::whole(object, tag) {
            if n > 0 {
                let per: u64 = match dtype_bytes(tag) {
                    Some(p) => p,
                    None => 1,
                };
                assert(1 <= per <= 8);
                assert(n <= n as int * per as int <= n * 8) by (nonlinear_arith)
                    requires
                        1 <= per <= 8,
                        n >= 0,
                ;
                bytes = bytes + n as u128 * per as u128;
                params = params + n as u128;
                insert_seen(&mut seen, Seen { tag, n });
            }
        }
        i += 1;
    }
    assert(all.subrange(0, i as int) =~= all);
    Summed { bytes, params, seen }
}

proof fn lemma_known_dtypes_have_sizes()
    ensures
        forall|k: int| 0 <= k < known_dtypes().len() ==> dtype_size(#[trigger] known_dtypes()[k]) is Some,
{
}

fn tag_list(seen: &Vec<Seen>) -> (r: String)
    ensures
        r@ == join(tag_texts(seen_views(seen@)), " + "@),
{
    let mut parts: Vec<String> = Vec::new();
    let mut i: usize = 0;
    while i < seen.len()
        invariant
            i <= seen@.len(),
            texts(parts@) =~= tag_texts(seen_views(seen@.subrange(0, i as int))),
        decreases seen@.len() - i,
    {
        let ghost prev = parts@;
        parts.push(copy(seen[i].tag));
        assert(texts(parts@) =~= texts(prev).push(seen@[i as int].tag@));
        i += 1;
    }
    assert(seen@.subrange(0, i as int) =~= seen@);
    joined(&parts, " + ")
}

// --------------------------------------------------------------------- fetched

pub struct Fetched {
    pub spec: ModelSpec,
    /// Published weight size in bytes, summed per dtype.
    pub weight_bytes: u64,
    /// The dtypes the weights are stored in, largest share first.
    pub dtypes: String,
}

/// What a [`Fetched`] holds.
pub struct FetchedView {
    pub spec: ModelView,
    pub weight_bytes: nat,
    pub dtypes: Seq<char>,
}

impl View for Fetched {
    type V = FetchedView;

    open spec fn view(&self) -> FetchedView {
        FetchedView { spec: self.spec@, weight_bytes: self.weight_bytes as nat, dtypes: self.dtypes@ }
    }
}

/// The model that the two documents describe, or what they lack. Expert
/// routing is not derivable in a portable way and changes only speed.
pub open spec fn fetched_in(id: Seq<char>, api: Seq<char>, config: Seq<char>) -> Result<FetchedView, Seq<char>> {
    match geometry_in(config) {
        Err(e) => Err(e),
        Ok(g) => match object_text(api, "parameters"@) {
            None => Err("the API reports no safetensors metadata for this repo"@),
            Some(object) => match uncounted(object, json::keys_from(object, 0)) {
                Some(e) => Err(e),
                None => {
                    let w = weights_in(object, known_dtypes());
                    if w.params == 0 {
                        Err("the API reports no parameter counts for this repo"@)
                    } else if w.bytes > u64::MAX {
                        Err("the API reports more weights than can be counted"@)
                    } else {
                        Ok(
                            FetchedView {
                                spec: ModelView {
                                    id,
                                    n_layers: g.n_layers,
                                    n_embd: g.n_embd,
                                    n_vocab: g.n_vocab,
                                    params: w.params,
                                    attention: g.attention,
                                    moe: None,
                                    n_ctx_train: g.n_ctx_train,
                                    quants: Seq::empty(),
                                },
                                weight_bytes: w.bytes,
                                dtypes: join(tag_texts(w.seen), " + "@),
                            },
                        )
                    }
                },
            },
        },
    }
}

/// What two fetches come to: the first that failed says why.
pub open spec fn fetched_or(
    id: Seq<char>,
    api: Result<Seq<char>, Seq<char>>,
    config: Result<Seq<char>, Seq<char>>,
) -> Result<FetchedView, Seq<char>> {
    match api {
        Err(e) => Err(e),
        Ok(a) => match config {
            Err(e) => Err(e),
            Ok(c) => fetched_in(id, a, c),
        },
    }
}

pub open spec fn reply(r: Result<String, String>) -> Result<Seq<char>, Seq<char>> {
    match r {
        Ok(s) => Ok(s@),
        Err(e) => Err(e@),
    }
}

/// A model from the answers of the two addresses of [`repo_urls`].
pub fn fetch_model(id: &str, api: Result<String, String>, config: Result<String, String>) -> (r: Result<Fetched, String>)
    ensures
        match r {
            Ok(f) => fetched_or(id@, reply(api), reply(config)) == Ok::<FetchedView, Seq<char>>(f@),
            Err(e) => fetched_or(id@, reply(api), reply(config)) == Err::<FetchedView, Seq<char>>(e@),
        },
{
    match api {
        Err(e) => Err(e),
        Ok(a) => match config {
            Err(e) => Err(e),
            Ok(c) => parse(id, a.as_str(), c.as_str()),
        },
    }
}

/// Parse the two documents into something the memory model can use.
pub fn parse(id: &str, api: &str, config: &str) -> (r: Result<Fetched, String>)
    ensures
        match r {
            Ok(f) => fetched_in(id@, api@, config@) == Ok::<FetchedView, Seq<char>>(f@),
            Err(e) => fetched_in(id@, api@, config@) == Err::<FetchedView, Seq<char>>(e@),
        },
{
    let g = match read_geometry(config) {
        Ok(g) => g,
        Err(e) => return Err(e),
    };
    let object = match json::object_at(api, "parameters") {
        Some(o) => o,
        None => return Err(copy("the API reports no safetensors metadata for this repo")),
    };
    if let Some(why) = find_uncounted(object) {
        return Err(why);
    }
    let w = sum_weights(object);
    if w.params == 0 {
        return Err(copy("the API reports no parameter counts for this repo"));
    }
    if w.bytes > u64::MAX as u128 {
        return Err(copy("the API reports more weights than can be counted"));
    }
    let dtypes = tag_list(&w.seen);
    let spec = ModelSpec {
        id: copy(id),
        n_layers: g.n_layers,
        n_embd: g.n_embd,
        n_vocab: g.n_vocab,
        params: w.params as u64,
        attention: g.attention,
        moe: None,
        n_ctx_train: g.n_ctx_train,
        quants: Vec::new(),
    };
    assert(spec@.quants =~= Seq::empty());
    Ok(Fetched { spec, weight_bytes: w.bytes as u64, dtypes })
}

// ------------------------------------------------------------------- rendering

pub open spec fn gib_text(b: nat) -> Seq<char> {
    fixed_text(nearest(rounded(b) * 100, pow2(30)), 2)
}

pub open spec fn mib_text(b: nat) -> Seq<char> {
    fixed_text(nearest(rounded(b) * 100, pow2(20)), 2)
}

/// A size in GiB with two decimals.
pub fn gib(b: u64) -> (o: String)
    ensures
        o@ == gib_text(b as nat),
{
    fixed_decimal(nearest_shifted(round_to_double(b) * 100, 30), 2)
}

fn mib(b: u64) -> (o: String)
    ensures
        o@ == mib_text(b as nat),
{
    fixed_decimal(nearest_shifted(round_to_double(b) * 100, 20), 2)
}

pub open spec fn attention_text(a: Attention) -> Seq<char> {
    match a {
        Attention::Gqa { n_kv_heads, head_dim } => "GQA "@ + dec(n_kv_heads as nat) + "x"@ + dec(head_dim as nat),
        Attention::Swa { n_kv_heads, head_dim, window, global_every } => "SWA "@ + dec(n_kv_heads as nat) + "x"@ + dec(
            head_dim as nat,
        ) + " window "@ + dec(window as nat) + ", global every "@ + dec(global_every as nat),
        Attention::Mla { kv_lora_rank, rope_head_dim } => "MLA"@,
        Attention::Hybrid { attn_layers, n_kv_heads, head_dim, ssm_state_bytes } => "Hybrid { attn_layers: "@ + dec(
            attn_layers as nat,
        ) + ", n_kv_heads: "@ + dec(n_kv_heads as nat) + ", head_dim: "@ + dec(head_dim as nat) + ", ssm_state_bytes: "@
            + dec(ssm_state_bytes as nat) + " }"@,
    }
}

fn attention_name(a: &Attention) -> (o: String)
    ensures
        o@ == attention_text(*a),
{
    match a {
        Attention::Gqa { n_kv_heads, head_dim } => {
            let mut o = copy("GQA ");
            o.append(decimal(*n_kv_heads as u128).as_str());
            o.append("x");
            o.append(decimal(*head_dim as u128).as_str());
            o
        },
        Attention::Swa { n_kv_heads, head_dim, window, global_every } => {
            let mut o = copy("SWA ");
            o.append(decimal(*n_kv_heads as u128).as_str());
            o.append("x");
            o.append(decimal(*head_dim as u128).as_str());
            o.append(" window ");
            o.append(decimal(*window as u128).as_str());
            o.append(", global every ");
            o.append(decimal(*global_every as u128).as_str());
            o
        },
        Attention::Mla { .. } => copy("MLA"),
        Attention::Hybrid { attn_layers, n_kv_heads, head_dim, ssm_state_bytes } => {
            let mut o = copy("Hybrid { attn_layers: ");
            o.append(decimal(*attn_layers as u128).as_str());
            o.append(", n_kv_heads: ");
            o.append(decimal(*n_kv_heads as u128).as_str());
            o.append(", head_dim: ");
            o.append(decimal(*head_dim as u128).as_str());
            o.append(", ssm_state_bytes: ");
            o.append(decimal(*ssm_state_bytes as u128).as_str());
            o.append(" }");
            o
        },
    }
}

/// The context that fits beside the published weights.
pub open spec fn context_beside(f: FetchedView, budget: nat, kv: KvPrecision, ubatch: nat) -> nat {
    usable_context(f.spec, minus(minus(budget, f.spec.buffer_bytes(ubatch)), f.weight_bytes), kv)
}

/// What a token of context costs, at that context.
pub open spec fn token_bytes(f: FetchedView, ctx: nat, kv: KvPrecision) -> nat {
    let c = if ctx >= 1 { ctx } else { 1 };
    ((f.spec.kv_bytes(c + 256, kv) - f.spec.kv_bytes(c, kv)) / 256) as nat
}

/// The facts: geometry, parameters, weights, budget and cache.
pub open spec fn facts_text(f: FetchedView, budget: nat, kv: KvPrecision, ctx: nat) -> Seq<char> {
    "\n== "@ + f.spec.id + " ==  (published weights, not a quantisation)\n\n  geometry     "@ + dec(f.spec.n_layers)
        + "L  n_embd "@ + dec(f.spec.n_embd) + "  vocab "@ + dec(f.spec.n_vocab) + "  "@ + attention_text(f.spec.attention)
        + "\n  parameters   "@ + Double::in_billions(f.spec.params).text(2) + "B  from the repo's safetensors metadata\n  weights      "@ + gib_text(
        f.weight_bytes,
    ) + " GiB  as published in "@ + f.dtypes + "\n  budget       "@ + gib_text(budget)
        + " GiB  measured on this machine, idle\n  KV           "@ + mib_text(token_bytes(f, ctx, kv)) + " MiB/token at "@
        + kv_label_text(kv) + "\n"@
}

/// The verdict, on memory grounds alone.
pub open spec fn verdict_text(f: FetchedView, budget: nat, kv: KvPrecision, ubatch: nat, ctx: nat) -> Seq<char> {
    let need = f.weight_bytes + f.spec.buffer_bytes(ubatch);
    if need >= budget {
        "\n  WON'T FIT    the published weights alone are "@ + gib_text((need - budget) as nat)
            + " GiB over budget\n               a quantisation may still fit -- Q4_K_M is roughly a\n               quarter of the size of BF16 weights\n"@
    } else if ctx < 512 {
        "\n  WON'T FIT    weights fit, but no usable context fits beside them\n"@
    } else {
        "\n  FITS         up to "@ + context_text(ctx) + " context at "@ + kv_label_text(kv) + "\n"@ + (if f.spec.n_ctx_train matches Some(
            t,
        ) && ctx >= t {
            "               capped by what the model was trained for, not by memory\n"@
        } else {
            ""@
        })
    }
}

pub open spec fn no_speed_text() -> Seq<char> {
    "\n  decode       -   speed needs the byte count of the quantised file you\n                   would actually load, which lives in a separate GGUF\n                   repo. Memory above is arithmetic over numbers the\n                   repo states; a speed here would not be. Run\n                   `zc verify` once you have pulled it to measure both.\n"@
}

fn facts(f: &Fetched, budget: u64, kv: KvPrecision, ctx: u32) -> (o: String)
    requires
        f@.spec.kv_countable(),
        ctx <= CONTEXT_LIMIT,
    ensures
        o@ == facts_text(f@, budget as nat, kv, ctx as nat),
{
    let c: u32 = if ctx >= 1 { ctx } else { 1 };
    let per: u64 = f.spec.kv_bytes_per_token(c, kv);
    proof {
        crate::kv::kv_bytes_grow_with_context(f@.spec, c as nat, (c + 256) as nat, kv);
    }
    let mut o = copy("\n== ");
    o.append(f.spec.id.as_str());
    o.append(" ==  (published weights, not a quantisation)\n\n  geometry     ");
    o.append(decimal(f.spec.n_layers as u128).as_str());
    o.append("L  n_embd ");
    o.append(decimal(f.spec.n_embd as u128).as_str());
    o.append("  vocab ");
    o.append(decimal(f.spec.n_vocab as u128).as_str());
    o.append("  ");
    o.append(attention_name(&f.spec.attention).as_str());
    o.append("\n  parameters   ");
    o.append(Double::billions(f.spec.params).fixed(2).as_str());
    o.append("B  from the repo's safetensors metadata\n  weights      ");
    o.append(gib(f.weight_bytes).as_str());
    o.append(" GiB  as published in ");
    o.append(f.dtypes.as_str());
    o.append("\n  budget       ");
    o.append(gib(budget).as_str());
    o.append(" GiB  measured on this machine, idle\n  KV           ");
    o.append(mib(per).as_str());
    o.append(" MiB/token at ");
    o.append(kv_label(kv));
    o.append("\n");
    o
}

fn verdict(f: &Fetched, budget: u64, kv: KvPrecision, bufs: u64, ctx: u32, ubatch: u32) -> (o: String)
    requires
        bufs == f@.spec.buffer_bytes(ubatch as nat),
        f@.weight_bytes + bufs <= u64::MAX,
    ensures
        o@ == verdict_text(f@, budget as nat, kv, ubatch as nat, ctx as nat),
{
    let need: u64 = f.weight_bytes + bufs;
    if need >= budget {
        concat3(
            "\n  WON'T FIT    the published weights alone are ",
            gib(need - budget).as_str(),
            " GiB over budget\n               a quantisation may still fit -- Q4_K_M is roughly a\n               quarter of the size of BF16 weights\n",
        )
    } else if ctx < 512 {
        copy("\n  WON'T FIT    weights fit, but no usable context fits beside them\n")
    } else {
        let capped = match f.spec.n_ctx_train {
            Some(t) => ctx >= t,
            None => false,
        };
        let mut o = copy("\n  FITS         up to ");
        o.append(fmt_context(ctx).as_str());
        o.append(" context at ");
        o.append(kv_label(kv));
        o.append("\n");
        o.append(
            if capped {
                "               capped by what the model was trained for, not by memory\n"
            } else {
                ""
            },
        );
        o
    }
}

/// What this machine can do with the model, on memory grounds alone. Its own
/// block rather than a row of the table: a row promises a speed, and nobody
/// has measured the file this machine would load.
pub fn render(f: &Fetched, budget: u64, kv: KvPrecision, ubatch: u32) -> (o: String)
    requires
        f@.spec.kv_countable(),
        f@.weight_bytes + f@.spec.buffer_bytes(ubatch as nat) <= u64::MAX,
    ensures
        ({
            let ctx = context_beside(f@, budget as nat, kv, ubatch as nat);
            o@ == facts_text(f@, budget as nat, kv, ctx) + verdict_text(
                f@,
                budget as nat,
                kv,
                ubatch as nat,
                ctx,
            ) + no_speed_text()
        }),
{
    let bufs: u64 = f.spec.compute_buffer_bytes(ubatch);
    let room: u64 = budget.saturating_sub(bufs).saturating_sub(f.weight_bytes);
    let fits: u32 = f.spec.max_context_in(room, kv);
    proof {
        crate::predict::lemma_largest_context(f@.spec, CONTEXT_LIMIT as nat, room as nat, kv);
        crate::kv::max_context_is_unique(
            f@.spec,
            fits as nat,
            f@.spec.largest_context(CONTEXT_LIMIT as nat, room as nat, kv),
            room as nat,
            kv,
        );
    }
    let ctx: u32 = match f.spec.n_ctx_train {
        Some(t) => if fits <= t {
            fits
        } else {
            t
        },
        None => fits,
    };
    let mut o = facts(f, budget, kv, ctx);
    o.append(verdict(f, budget, kv, bufs, ctx, ubatch).as_str());
    o.append(
        "\n  decode       -   speed needs the byte count of the quantised file you\n                   would actually load, which lives in a separate GGUF\n                   repo. Memory above is arithmetic over numbers the\n                   repo states; a speed here would not be. Run\n                   `zc verify` once you have pulled it to measure both.\n",
    );
    o
}

} // verus!
