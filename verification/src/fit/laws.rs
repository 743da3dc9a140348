//! From the records to the coefficient that is looked up.

use vstd::prelude::*;
use crate::double::{Double, ONE_BITS};
use crate::fit::{
    backend_keys, bucket_key, bucket_keys, eta_positions, eta_samples, fits_groups, is_fitted, is_parent, median_of, parents_groups,
    plausible_eta, prior_sum, sample_values, under, Coefficient, Confidence, Fit, Groups, Named, Parent, Record, Sample,
};
use crate::group::{grouped, has_key, items_of, Group};
use crate::spec::QuantFamily;

verus! {

/// The runs of the first `n` records that count on a backend: those of one
/// family, or of any.
pub open spec fn runs_with(records: Seq<Record>, n: nat, backend: Seq<char>, family: Option<QuantFamily>) -> Seq<Sample>
    decreases n,
{
    if n == 0 {
        Seq::empty()
    } else {
        let rest = runs_with(records, (n - 1) as nat, backend, family);
        let r = records[n - 1];
        if plausible_eta(r.implied_eta) && r.backend@ == backend && (family matches Some(f) ==> r.quant_family == f) {
            rest.push(Sample { value: r.implied_eta, family: r.quant_family, record: (n - 1) as usize })
        } else {
            rest
        }
    }
}

proof fn lemma_tag_has_no_slash(f: QuantFamily)
    ensures
        forall|i: int| 0 <= i < f.tag_text().len() ==> #[trigger] f.tag_text()[i] != '/',
{
    reveal_strlit("legacy");
    reveal_strlit("k_quant");
    reveal_strlit("i_quant");
    reveal_strlit("block_float");
    reveal_strlit("float");
}

/// No two buckets share a key.
proof fn lemma_keys_differ(a: Seq<char>, f: QuantFamily, b: Seq<char>, g: QuantFamily)
    requires
        bucket_key(a, f) == bucket_key(b, g),
    ensures
        a == b,
        f == g,
{
    reveal_strlit("/");
    let (s, t) = (f.tag_text(), g.tag_text());
    let k = bucket_key(a, f);
    lemma_tag_has_no_slash(f);
    lemma_tag_has_no_slash(g);
    assert("/"@.len() == 1 && "/"@[0] == '/');
    assert(k == a + "/"@ + s && k == b + "/"@ + t);
    assert(k.len() == a.len() + 1 + s.len() && k.len() == b.len() + 1 + t.len());
    assert(k[a.len() as int] == '/');
    assert(bucket_key(b, g)[b.len() as int] == '/');
    if a.len() < b.len() {
        assert((a + "/"@ + s)[b.len() as int] == s[b.len() - (a.len() + 1)]);
    } else if b.len() < a.len() {
        assert((b + "/"@ + t)[a.len() as int] == t[a.len() - (b.len() + 1)]);
    }
    assert(a =~= k.subrange(0, a.len() as int));
    assert(b =~= k.subrange(0, a.len() as int));
    assert(s =~= k.subrange(a.len() as int + 1, k.len() as int));
    assert(t =~= k.subrange(a.len() as int + 1, k.len() as int));
    crate::spec::tag_names_its_family(f);
    crate::spec::tag_names_its_family(g);
}

pub proof fn lemma_bucket_items(records: Seq<Record>, n: nat, backend: Seq<char>, family: QuantFamily)
    ensures
        ({
            let e = eta_positions(records, n);
            items_of(bucket_keys(records, e), eta_samples(records, e), bucket_key(backend, family)) == runs_with(
                records,
                n,
                backend,
                Some(family),
            )
        }),
    decreases n,
{
    if n > 0 {
        let m = (n - 1) as nat;
        lemma_bucket_items(records, m, backend, family);
        let e = eta_positions(records, m);
        let r = records[n - 1];
        if plausible_eta(r.implied_eta) {
            let x = e.push(n - 1);
            assert(bucket_keys(records, x).drop_last() =~= bucket_keys(records, e));
            assert(eta_samples(records, x).drop_last() =~= eta_samples(records, e));
            assert(bucket_keys(records, x).last() == bucket_key(r.backend@, r.quant_family));
            if bucket_key(r.backend@, r.quant_family) == bucket_key(backend, family) {
                lemma_keys_differ(r.backend@, r.quant_family, backend, family);
            }
        }
    }
}

pub proof fn lemma_backend_items(records: Seq<Record>, n: nat, backend: Seq<char>)
    ensures
        ({
            let e = eta_positions(records, n);
            items_of(backend_keys(records, e), eta_samples(records, e), backend) == runs_with(records, n, backend, None)
        }),
    decreases n,
{
    if n > 0 {
        let m = (n - 1) as nat;
        lemma_backend_items(records, m, backend);
        let e = eta_positions(records, m);
        let r = records[n - 1];
        if plausible_eta(r.implied_eta) {
            let x = e.push(n - 1);
            assert(backend_keys(records, x).drop_last() =~= backend_keys(records, e));
            assert(eta_samples(records, x).drop_last() =~= eta_samples(records, e));
            assert(backend_keys(records, x).last() == r.backend@);
        }
    }
}

pub proof fn lemma_items_have_a_key<T>(keys: Seq<Seq<char>>, vals: Seq<T>, k: Seq<char>)
    requires
        keys.len() == vals.len(),
        items_of(keys, vals, k).len() > 0,
    ensures
        exists|i: int| 0 <= i < keys.len() && #[trigger] keys[i] == k,
    decreases keys.len(),
{
    if keys.len() > 0 {
        if keys.last() == k {
            assert(keys[keys.len() - 1] == k);
        } else {
            lemma_items_have_a_key(keys.drop_last(), vals.drop_last(), k);
            let i = choose|i: int| 0 <= i < keys.drop_last().len() && #[trigger] keys.drop_last()[i] == k;
            assert(keys[i] == k);
        }
    }
}

/// What stands under a key that is not there, and under one that is.
proof fn lemma_under<T>(v: Seq<Named<T>>, key: Seq<char>)
    ensures
        match under(v, key) {
            Some(x) => exists|i: int| 0 <= i < v.len() && (#[trigger] v[i]).key@ == key && v[i].value == x,
            None => forall|i: int| 0 <= i < v.len() ==> (#[trigger] v[i]).key@ != key,
        },
    decreases v.len(),
{
    if v.len() > 0 && v[0].key@ != key {
        let rest = v.subrange(1, v.len() as int);
        lemma_under(rest, key);
        match under(rest, key) {
            Some(x) => {
                let i = choose|i: int| 0 <= i < rest.len() && (#[trigger] rest[i]).key@ == key && rest[i].value == x;
                assert(v[i + 1] == rest[i]);
            },
            None => {
                assert forall|i: int| 0 <= i < v.len() implies (#[trigger] v[i]).key@ != key by {
                    if i > 0 {
                        assert(rest[i - 1].key@ != key);
                    }
                }
            },
        }
    } else if v.len() > 0 {
        assert(v[0].key@ == key && v[0].value == under(v, key)->0);
    }
}

/// A key stands in the groups exactly where something has it.
pub proof fn lemma_group_of<T>(g: Seq<Group<T>>, keys: Seq<Seq<char>>, vals: Seq<T>, k: Seq<char>)
    requires
        grouped(g, keys, vals),
        keys.len() == vals.len(),
    ensures
        items_of(keys, vals, k).len() > 0 <==> has_key(g, k),
{
    if items_of(keys, vals, k).len() > 0 {
        lemma_items_have_a_key(keys, vals, k);
        let i = choose|i: int| 0 <= i < keys.len() && #[trigger] keys[i] == k;
        assert(has_key(g, keys[i]));
    }
    if has_key(g, k) {
        let h = choose|h: int| 0 <= h < g.len() && (#[trigger] g[h]).key@ == k;
        assert(g[h].items@ == items_of(keys, vals, k));
    }
}

pub proof fn lemma_bucket(v: Seq<Named<Coefficient>>, g: Seq<Group<Sample>>, keys: Seq<Seq<char>>, vals: Seq<Sample>, records: Seq<Record>, k: Seq<char>)
    requires
        grouped(g, keys, vals),
        keys.len() == vals.len(),
        fits_groups(v, g, records),
    ensures
        match under(v, k) {
            Some(c) => items_of(keys, vals, k).len() > 0 && is_fitted(c, records, items_of(keys, vals, k)),
            None => items_of(keys, vals, k).len() == 0,
        },
{
    lemma_under(v, k);
    lemma_group_of(g, keys, vals, k);
    match under(v, k) {
        Some(c) => {
            let i = choose|i: int| 0 <= i < v.len() && (#[trigger] v[i]).key@ == k && v[i].value == c;
            assert(g[i].key@ == k);
        },
        None => {
            if has_key(g, k) {
                let h = choose|h: int| 0 <= h < g.len() && (#[trigger] g[h]).key@ == k;
                assert(v[h].key@ == k);
            }
        },
    }
}

proof fn lemma_parent(v: Seq<Named<Parent>>, g: Seq<Group<Sample>>, keys: Seq<Seq<char>>, vals: Seq<Sample>, records: Seq<Record>, k: Seq<char>)
    requires
        grouped(g, keys, vals),
        keys.len() == vals.len(),
        parents_groups(v, g, records),
    ensures
        match under(v, k) {
            Some(p) => items_of(keys, vals, k).len() > 0 && is_parent(p, records, items_of(keys, vals, k)),
            None => items_of(keys, vals, k).len() == 0,
        },
{
    lemma_under(v, k);
    lemma_group_of(g, keys, vals, k);
    match under(v, k) {
        Some(p) => {
            let i = choose|i: int| 0 <= i < v.len() && (#[trigger] v[i]).key@ == k && v[i].value == p;
            assert(g[i].key@ == k);
        },
        None => {
            if has_key(g, k) {
                let h = choose|h: int| 0 <= h < g.len() && (#[trigger] g[h]).key@ == k;
                assert(v[h].key@ == k);
            }
        },
    }
}

/// What a family's own prior is of the mean prior of some runs.
pub open spec fn carried_over(runs: Seq<Sample>, family: QuantFamily) -> Double {
    let mean = prior_sum(runs, runs.len()).quotient(Double::count(runs.len()));
    if (Double { bits: 0 }).below(mean) {
        (Double { bits: family.efficiency_bits() }).quotient(mean)
    } else {
        Double { bits: ONE_BITS }
    }
}

/// What is looked up is what was measured. Runs of the family on the backend
/// give their median, their number and the confidence that goes with it.
/// Without any, runs of other families on it lend theirs, at low confidence.
/// Without those there is only the prior. No range is narrower than its
/// confidence allows.
pub proof fn what_is_looked_up_is_what_was_measured(
    fit: Fit,
    records: Seq<Record>,
    backend: Seq<char>,
    family: QuantFamily,
    prior: Double,
)
    requires
        fit.is_of(records),
    ensures
        ({
            let c = fit.coefficient(backend, family, prior);
            let own = runs_with(records, records.len(), backend, Some(family));
            let any = runs_with(records, records.len(), backend, None);
            &&& own.len() > 0 ==> c.eta == median_of(sample_values(own)) && c.samples == own.len() && c.confidence
                == Confidence::of_count(own.len())
            &&& own.len() == 0 && any.len() > 0 ==> c.eta == median_of(sample_values(any)).product(carried_over(any, family))
                && c.samples == any.len() && c.confidence == Confidence::Low
            &&& any.len() == 0 && own.len() == 0 ==> c.eta == prior && c.samples == 0 && c.confidence == Confidence::Prior
            &&& (Double { bits: c.confidence.min_spread_bits() }).at_most(c.spread)
        }),
{
    let g = choose|g: Groups| g.are_those_of(records) && #[trigger] fit.fits(g, records);
    let n = records.len();
    let e = eta_positions(records, n);
    let vals = eta_samples(records, e);
    lemma_bucket_items(records, n, backend, family);
    lemma_backend_items(records, n, backend);
    lemma_bucket(fit.buckets@, g.buckets@, bucket_keys(records, e), vals, records, bucket_key(backend, family));
    lemma_parent(fit.parents@, g.parents@, backend_keys(records, e), vals, records, backend);
}

} // verus!
