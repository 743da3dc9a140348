//! Which models a catalog holds, and which one a runtime's model is.

use vstd::prelude::*;
use crate::catalog::{attention_in, lemma_position, model_in, moe_in, overridden, position_of, put, quant_in, quants_in, unreadable};
use crate::chars::{contains, lower, uppercase};
use crate::double::error::{near, nearness_cancels, nearness_carries_over, ordinary, quotients_are_near, SLACK};
use crate::double::laws::{small_counts_are_exact, small_counts_are_taken_exactly};
use crate::double::{lemma_pow2_grows, pow2, Double};
use crate::json::{object_text, string_at, whole_at};
use crate::predict::inversion::{lemma_between, lemma_count_is_ordinary, lemma_positive};
use crate::predict::laws::order_is_that_of_the_numbers;
use crate::predict::speed::{lemma_nothing, lemma_powers_of_two, lemma_turned, one};
use crate::probe::storage::byte_len;
use crate::runtime::{
    agrees, best_entry, entry_for, installed_quants, names_match, off_by, quants_named, rate_over, squashed, InstalledView, TOLERANCE_BITS,
};
use crate::spec::{Attention, ModelView, QuantView};

verus! {

// ------------------------------------------------------------------ documents

/// A model has what its document states under these names, and has at least
/// one quantisation. A context that it was not trained for is not zero: it is
/// not stated.
pub proof fn a_model_has_what_its_document_states(s: Seq<char>, m: ModelView)
    requires
        model_in(s) == Some(m),
    ensures
        string_at(s, "id"@) == Some(m.id),
        whole_at(s, "n_layers"@, u32::MAX as nat) == Some(m.n_layers),
        whole_at(s, "n_embd"@, u32::MAX as nat) == Some(m.n_embd),
        whole_at(s, "n_vocab"@, u32::MAX as nat) == Some(m.n_vocab),
        whole_at(s, "params"@, u64::MAX as nat) == Some(m.params),
        object_text(s, "attention"@) matches Some(a) && attention_in(a) == Some(m.attention),
        m.moe is Some ==> object_text(s, "moe"@) is Some,
        m.n_ctx_train matches Some(c) ==> c > 0,
        m.quants.len() > 0,
{
}

/// The attention of each kind is made of the fields of that kind, and an
/// unknown kind is none.
pub proof fn attention_is_what_the_object_states(s: Seq<char>)
    ensures
        match attention_in(s) {
            Some(Attention::Gqa { n_kv_heads, head_dim }) => string_at(s, "kind"@) == Some("gqa"@) && whole_at(
                s,
                "n_kv_heads"@,
                u32::MAX as nat,
            ) == Some(n_kv_heads as nat) && whole_at(s, "head_dim"@, u32::MAX as nat) == Some(head_dim as nat),
            Some(Attention::Mla { kv_lora_rank, rope_head_dim }) => string_at(s, "kind"@) == Some("mla"@) && whole_at(
                s,
                "kv_lora_rank"@,
                u32::MAX as nat,
            ) == Some(kv_lora_rank as nat) && whole_at(s, "rope_head_dim"@, u32::MAX as nat) == Some(rope_head_dim as nat),
            Some(Attention::Swa { n_kv_heads, head_dim, window, global_every }) => string_at(s, "kind"@) == Some("swa"@) && whole_at(
                s,
                "n_kv_heads"@,
                u32::MAX as nat,
            ) == Some(n_kv_heads as nat) && whole_at(s, "head_dim"@, u32::MAX as nat) == Some(head_dim as nat) && whole_at(
                s,
                "window"@,
                u32::MAX as nat,
            ) == Some(window as nat) && (whole_at(s, "global_every"@, u32::MAX as nat) matches Some(g) ==> global_every == g),
            Some(Attention::Hybrid { attn_layers, n_kv_heads, head_dim, ssm_state_bytes }) => string_at(s, "kind"@) == Some("hybrid"@)
                && whole_at(s, "attn_layers"@, u32::MAX as nat) == Some(attn_layers as nat) && whole_at(
                s,
                "n_kv_heads"@,
                u32::MAX as nat,
            ) == Some(n_kv_heads as nat) && whole_at(s, "head_dim"@, u32::MAX as nat) == Some(head_dim as nat) && whole_at(
                s,
                "ssm_state_bytes"@,
                u64::MAX as nat,
            ) == Some(ssm_state_bytes as nat),
            None => true,
        },
        moe_in(Some(s)) matches Some(m) ==> whole_at(s, "n_expert"@, u32::MAX as nat) == Some(m.n_expert as nat) && whole_at(
            s,
            "n_active"@,
            u32::MAX as nat,
        ) == Some(m.n_active as nat) && whole_at(s, "expert_params"@, u64::MAX as nat) == Some(m.expert_params as nat) && whole_at(
            s,
            "shared_params"@,
            u64::MAX as nat,
        ) == Some(m.shared_params as nat),
        quant_in(s) matches Some(q) ==> string_at(s, "name"@) == Some(q.name) && whole_at(s, "bytes"@, u64::MAX as nat) == Some(q.bytes),
{
}

/// Every quantisation that can be read is taken over, in order, and no other.
pub proof fn no_readable_quantisation_is_left_out(objects: Seq<Seq<char>>)
    ensures
        forall|i: int| 0 <= i < objects.len() ==> (quant_in(#[trigger] objects[i]) matches Some(q) ==> quants_in(objects).contains(q)),
        quants_in(objects).len() <= objects.len(),
        (forall|i: int| 0 <= i < objects.len() ==> quant_in(#[trigger] objects[i]) is Some) ==> quants_in(objects).len() == objects.len(),
    decreases objects.len(),
{
    if objects.len() > 0 {
        let r = objects.drop_last();
        no_readable_quantisation_is_left_out(r);
        let (a, b) = (quants_in(r), quants_in(objects));
        assert forall|i: int| 0 <= i < objects.len() implies (quant_in(#[trigger] objects[i]) matches Some(q) ==> b.contains(q)) by {
            if let Some(q) = quant_in(objects[i]) {
                if i < r.len() {
                    assert(r[i] == objects[i]);
                    let k = choose|k: int| 0 <= k < a.len() && a[k] == q;
                    assert(b[k] == q);
                } else {
                    assert(b[a.len() as int] == q);
                }
            }
        }
        if forall|i: int| 0 <= i < objects.len() ==> quant_in(#[trigger] objects[i]) is Some {
            assert forall|i: int| 0 <= i < r.len() implies quant_in(#[trigger] r[i]) is Some by {
                assert(quant_in(objects[i]) is Some);
            }
            assert(quant_in(objects[objects.len() - 1]) is Some);
        }
    }
}

// -------------------------------------------------------------------- loading

/// A model takes the place of the one of its name, or goes behind the others.
/// No other model is touched.
pub proof fn a_document_replaces_its_namesake_alone(v: Seq<ModelView>, m: ModelView)
    ensures
        put(v, m).contains(m),
        forall|i: int| 0 <= i < v.len() && (#[trigger] v[i]).id != m.id ==> put(v, m)[i] == v[i],
        (exists|i: int| 0 <= i < v.len() && (#[trigger] v[i]).id == m.id) ==> put(v, m).len() == v.len(),
        (forall|i: int| 0 <= i < v.len() ==> (#[trigger] v[i]).id != m.id) ==> put(v, m).len() == v.len() + 1,
{
    lemma_position(v, m.id);
    match position_of(v, m.id) {
        Some(i) => {
            assert(put(v, m)[i] == m);
        },
        None => {
            assert(put(v, m)[v.len() as int] == m);
        },
    }
}

/// Of the documents that describe one model, the last counts.
pub proof fn the_last_document_of_a_name_counts(base: Seq<ModelView>, docs: Seq<Seq<char>>, k: int, m: ModelView)
    requires
        0 <= k < docs.len(),
        model_in(docs[k]) == Some(m),
        forall|j: int| k < j < docs.len() ==> (model_in(#[trigger] docs[j]) matches Some(o) ==> o.id != m.id),
    ensures
        overridden(base, docs).contains(m),
    decreases docs.len(),
{
    let r = docs.drop_last();
    let last = docs.len() - 1;
    if k == last {
        a_document_replaces_its_namesake_alone(overridden(base, r), m);
    } else {
        assert(r[k] == docs[k]);
        assert forall|j: int| k < j < r.len() implies (model_in(#[trigger] r[j]) matches Some(o) ==> o.id != m.id) by {
            assert(r[j] == docs[j]);
        }
        the_last_document_of_a_name_counts(base, r, k, m);
        let w = overridden(base, r);
        let i = choose|i: int| 0 <= i < w.len() && w[i] == m;
        if let Some(o) = model_in(docs[last]) {
            a_document_replaces_its_namesake_alone(w, o);
            assert(put(w, o)[i] == m);
        }
    }
}

proof fn lemma_unreadable_below(docs: Seq<Seq<char>>)
    ensures
        forall|k: int| 0 <= k < unreadable(docs).len() ==> 0 <= #[trigger] unreadable(docs)[k] < docs.len(),
    decreases docs.len(),
{
    if docs.len() > 0 {
        let r = docs.drop_last();
        let (a, b) = (unreadable(r), unreadable(docs));
        lemma_unreadable_below(r);
        assert forall|k: int| 0 <= k < b.len() implies 0 <= #[trigger] b[k] < docs.len() by {
            if k < a.len() {
                assert(a[k] == b[k]);
            }
        }
    }
}

/// A document is told to be unreadable exactly where it describes no model.
pub proof fn what_describes_no_model_is_told(docs: Seq<Seq<char>>, i: int)
    requires
        0 <= i < docs.len(),
    ensures
        unreadable(docs).contains(i) <==> model_in(docs[i]) is None,
    decreases docs.len(),
{
    let r = docs.drop_last();
    let (a, b) = (unreadable(r), unreadable(docs));
    lemma_unreadable_below(r);
    if i < r.len() {
        assert(r[i] == docs[i]);
        what_describes_no_model_is_told(r, i);
        if a.contains(i) {
            let k = choose|k: int| 0 <= k < a.len() && a[k] == i;
            assert(b[k] == i);
        }
        if b.contains(i) {
            let k = choose|k: int| 0 <= k < b.len() && b[k] == i;
            assert(a[k] == i);
        }
    } else if b.len() > a.len() {
        assert(b[a.len() as int] == i);
    } else if b.contains(i) {
        let k = choose|k: int| 0 <= k < b.len() && b[k] == i;
        assert(a[k] == i);
    }
}

// ------------------------------------------------------------------- matching

/// Of the entries whose name goes with the wanted one, the one with the longest
/// name is taken, the last of several such.
pub proof fn the_most_specific_entry_is_taken(specs: Seq<ModelView>, want: Seq<char>)
    ensures
        match best_entry(specs, want) {
            Some(k) => {
                &&& 0 <= k < specs.len()
                &&& names_match(want, specs[k].id)
                &&& forall|i: int| 0 <= i < specs.len() && names_match(want, (#[trigger] specs[i]).id) ==> byte_len(specs[i].id)
                    <= byte_len(specs[k].id)
                &&& forall|i: int| k < i < specs.len() && names_match(want, (#[trigger] specs[i]).id) ==> byte_len(specs[i].id)
                    < byte_len(specs[k].id)
            },
            None => forall|i: int| 0 <= i < specs.len() ==> !names_match(want, (#[trigger] specs[i]).id),
        },
    decreases specs.len(),
{
    if specs.len() > 0 {
        let r = specs.drop_last();
        the_most_specific_entry_is_taken(r, want);
        assert forall|i: int| 0 <= i < r.len() implies #[trigger] specs[i] == r[i] by {}
    }
}

/// Two names go together where one holds the other, letters and digits alone
/// and whatever the case.
pub proof fn a_name_goes_with_what_it_holds(want: Seq<char>, id: Seq<char>)
    ensures
        contains(want, squashed(id)) ==> names_match(want, id),
        contains(squashed(id), want) ==> names_match(want, id),
        names_match(want, id) ==> contains(want, squashed(id)) || contains(squashed(id), want),
        forall|i: int| 0 <= i < squashed(id).len() ==> '0' <= #[trigger] squashed(id)[i] <= '9' || 'a' <= squashed(id)[i] <= 'z',
{
    lemma_squashed(id);
}

proof fn lemma_squashed(s: Seq<char>)
    ensures
        forall|i: int| 0 <= i < squashed(s).len() ==> '0' <= #[trigger] squashed(s)[i] <= '9' || 'a' <= squashed(s)[i] <= 'z',
    decreases s.len(),
{
    if s.len() > 0 {
        let r = squashed(s.drop_last());
        lemma_squashed(s.drop_last());
        assert forall|i: int| 0 <= i < squashed(s).len() implies '0' <= #[trigger] squashed(s)[i] <= '9' || 'a' <= squashed(s)[i] <= 'z' by {
            if i < r.len() {
                assert(squashed(s)[i] == r[i]);
            }
        }
    }
}

/// The distance of two numbers.
pub open spec fn apart(a: nat, b: nat) -> nat {
    if a >= b {
        (a - b) as nat
    } else {
        (b - a) as nat
    }
}

proof fn lemma_off_by(p: nat, params: nat)
    requires
        0 < params <= 0x20_0000_0000_0000,
        p <= 0x20_0000_0000_0000,
    ensures
        ({
            let d = off_by(p, params);
            &&& d.finite() && !d.negative()
            &&& near(d.units() * params, apart(p, params) * one(), 1)
        }),
{
    let t = one();
    let (x, y) = (Double::count(p), Double::count(params));
    let n = apart(p, params);
    lemma_nothing();
    small_counts_are_exact(p);
    small_counts_are_exact(params);
    small_counts_are_exact(n);
    lemma_count_is_ordinary(params);
    lemma_positive(y, 53);
    let e = x.difference(y).absolute();
    if p >= params {
        small_counts_are_taken_exactly(p, params);
    } else {
        small_counts_are_taken_exactly(params, p);
        assert(p * t < params * t) by (nonlinear_arith)
            requires
                p < params,
                t > 0,
        ;
        lemma_turned(x, y);
    }
    let c = Double::count(n);
    assert(e.magnitude() == c.magnitude() && !e.negative());
    assert(e == c);
    let d = e.quotient(y);
    if n == 0 {
        reveal(Double::quotient);
        assert(0 * t == 0) by (nonlinear_arith);
        crate::predict::inversion::lemma_zero_rounds_to_zero(y);
        crate::double::error::anything_is_near_itself(0, 1);
        assert(0 * params == 0) by (nonlinear_arith);
    } else {
        lemma_count_is_ordinary(n);
        quotients_are_near(c, y, 53, 53);
        assert(d.units() * (params * t) == (d.units() * params) * t) by (nonlinear_arith);
        nearness_cancels(d.units() * params, n * t, t, 1);
    }
}

/// A parameter count that is off by less than two percent of the entry's
/// agrees with it, and one that is off by more contradicts it; so does another
/// width or another vocabulary.
pub proof fn a_match_is_within_two_percent(m: InstalledView, s: ModelView)
    requires
        0 < s.params <= 0x20_0000_0000_0000,
        m.params matches Some(p) ==> p <= 0x20_0000_0000_0000,
    ensures
        agrees(m, s) ==> (m.params matches Some(p) ==> apart(p as nat, s.params) * 10_000 <= 201 * s.params),
        (m.params matches Some(p) ==> apart(p as nat, s.params) * 10_000 <= 199 * s.params) && (m.n_embd matches Some(n) ==> n == s.n_embd) && (
        m.n_vocab matches Some(n) ==> n == s.n_vocab) ==> agrees(m, s),
        agrees(m, s) ==> (m.n_embd matches Some(n) ==> n == s.n_embd) && (m.n_vocab matches Some(n) ==> n == s.n_vocab),
{
    if let Some(p) = m.params {
        let t = one();
        let tol = Double { bits: TOLERANCE_BITS };
        let d = off_by(p as nat, s.params);
        let n = apart(p as nat, s.params);
        lemma_nothing();
        lemma_off_by(p as nat, s.params);
        lemma_tolerance();
        order_is_that_of_the_numbers(tol, d);
        lemma_bounds(d.units(), tol.units(), s.params, n, t);
    }
}

proof fn lemma_tolerance()
    ensures
        (Double { bits: TOLERANCE_BITS }).finite(),
        !(Double { bits: TOLERANCE_BITS }).negative(),
        199_900 * one() <= (Double { bits: TOLERANCE_BITS }).units() * 10_000_000 <= 200_100 * one(),
{
    let c = Double { bits: TOLERANCE_BITS };
    lemma_powers_of_two();
    assert(c.significand() == 0x14_7AE1_47AE_147B && c.exponent() == -58);
    lemma_between(c, 0x3F9, 10);
    let k = pow2(1016);
    crate::double::lemma_pow2_adds(58, 1016);
    crate::double::lemma_pow2_adds(56, 2);
    assert(pow2(58) == 0x400_0000_0000_0000);
    assert(one() == 0x400_0000_0000_0000 * k);
    lemma_pow2_grows(0, 1016);
    assert(199_900 * (0x400_0000_0000_0000 * k) <= (0x14_7AE1_47AE_147B * k) * 10_000_000 <= 200_100 * (0x400_0000_0000_0000 * k))
        by (nonlinear_arith)
        requires
            k >= 0,
    ;
}

proof fn lemma_bounds(d: nat, tol: nat, params: nat, n: nat, t: nat)
    requires
        near(d * params, n * t, 1),
        199_900 * t <= tol * 10_000_000 <= 200_100 * t,
        t > 0,
        params > 0,
    ensures
        d <= tol ==> n * 10_000 <= 201 * params,
        n * 10_000 <= 199 * params ==> d <= tol,
{
    let m = SLACK as int;
    if d <= tol {
        assert(n * 10_000 <= 201 * params) by (nonlinear_arith)
            requires
                (n * t) * m <= (d * params) * (m + 1),
                d <= tol,
                tol * 10_000_000 <= 200_100 * t,
                m >= 1_000_000,
                t > 0,
                params > 0,
        ;
    }
    if n * 10_000 <= 199 * params && d > tol {
        assert(false) by (nonlinear_arith)
            requires
                (d * params) * m <= (n * t) * (m + 1),
                d > tol,
                199_900 * t <= tol * 10_000_000,
                n * 10_000 <= 199 * params,
                m >= 1_000_000,
                t > 0,
                params > 0,
        ;
    }
}

/// A model that a runtime has is the entry with its own bytes: everything but
/// the quantisations is the entry's, and where the runtime knows the size, that
/// is the size.
pub proof fn an_installed_model_keeps_its_own_size(specs: Seq<ModelView>, m: InstalledView, s: ModelView)
    requires
        entry_for(specs, m) == Some(s),
    ensures
        exists|k: int| #![trigger specs[k]]
            0 <= k < specs.len() && names_match(squashed(m.name), specs[k].id) && agrees(m, specs[k]) && s.id == specs[k].id && s.params
                == specs[k].params && s.n_layers == specs[k].n_layers && s.n_embd == specs[k].n_embd && s.attention == specs[k].attention
                && s.moe == specs[k].moe && s.n_ctx_train == specs[k].n_ctx_train,
        s.quants.len() > 0,
        m.size_bytes > 0 ==> s.quants[0].bytes == m.size_bytes,
        forall|i: int| 0 <= i < s.quants.len() ==> uppercase((#[trigger] s.quants[i]).name) == uppercase(m.quant),
{
    the_most_specific_entry_is_taken(specs, squashed(m.name));
    let k = best_entry(specs, squashed(m.name))->0;
    assert(names_match(squashed(m.name), specs[k].id));
    let named = quants_named(specs[k].quants, uppercase(m.quant));
    lemma_named(specs[k].quants, uppercase(m.quant));
    assert(installed_quants(named, m) == Some(s.quants));
    assert forall|i: int| 0 <= i < s.quants.len() implies uppercase((#[trigger] s.quants[i]).name) == uppercase(m.quant) by {
        if named.len() > 0 {
            assert(uppercase(named[i].name) == uppercase(m.quant));
        }
    }
}

proof fn lemma_named(q: Seq<QuantView>, label: Seq<char>)
    ensures
        forall|i: int| 0 <= i < quants_named(q, label).len() ==> uppercase((#[trigger] quants_named(q, label)[i]).name) == label,
        forall|i: int| 0 <= i < q.len() && uppercase((#[trigger] q[i]).name) == label ==> quants_named(q, label).contains(q[i]),
    decreases q.len(),
{
    if q.len() > 0 {
        let r = q.drop_last();
        lemma_named(r, label);
        let (a, b) = (quants_named(r, label), quants_named(q, label));
        assert forall|i: int| 0 <= i < q.len() && uppercase((#[trigger] q[i]).name) == label implies b.contains(q[i]) by {
            if i < r.len() {
                assert(r[i] == q[i]);
                let k = choose|k: int| 0 <= k < a.len() && a[k] == q[i];
                assert(b[k] == q[i]);
            } else {
                assert(b[a.len() as int] == q[i]);
            }
        }
    }
}

/// Without a size and without a quantisation of its name in the catalog there
/// is nothing to predict from; with either there is.
pub proof fn nothing_is_made_up_of_a_model(named: Seq<QuantView>, m: InstalledView)
    ensures
        installed_quants(named, m) is None <==> named.len() == 0 && (m.size_bytes == 0 || lower(m.quant) == "unknown"@),
{
}

/// A rate is a count by a time, which is told in parts of a second; where no
/// time passed there is none.
pub proof fn a_rate_is_a_count_by_a_time(count: Double, time: Double, parts: Double)
    requires
        ordinary(count, 100),
        ordinary(parts, 100),
        time.finite() && !time.negative(),
    ensures
        ordinary(time, 100) ==> near(rate_over(count, time, parts).units() * time.units(), count.units() * parts.units(), 3),
        time.units() == 0 ==> rate_over(count, time, parts).units() == 0,
{
    let t = one();
    lemma_nothing();
    if ordinary(time, 100) {
        lemma_positive(time, 100);
        quotients_are_near(time, parts, 100, 100);
        let s = time.quotient(parts);
        quotients_are_near(count, s, 100, 200);
        let r = count.quotient(s);
        let (a, b, c, d, e) = (r.units(), s.units(), count.units(), time.units(), parts.units());
        // a b ~ c t and b e ~ d t
        crate::double::error::nearness_scales(a * b, c * t, e, 1);
        crate::double::error::nearness_scales(b * e, d * t, a, 1);
        assert((a * b) * e == (b * e) * a) by (nonlinear_arith);
        nearness_carries_over((d * t) * a, (a * b) * e, (c * t) * e, 1, 1);
        assert((d * t) * a == (a * d) * t && (c * t) * e == (c * e) * t) by (nonlinear_arith);
        nearness_cancels(a * d, c * e, t, 3);
    }
    crate::runtime::judged::lemma_zero_has_no_units(time);
}

} // verus!
