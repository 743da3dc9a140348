//! Putting things in order.

use vstd::prelude::*;
use crate::chars::chars_of;

verus! {

/// `r` lists the numbers below `n`, each before those that it comes before.
/// Where `before` is a strict total order there is exactly one such list.
pub open spec fn in_order(r: Seq<usize>, n: nat, before: spec_fn(int, int) -> bool) -> bool {
    &&& r.len() == n
    &&& forall|i: int| 0 <= i < n ==> (#[trigger] r[i]) < n
    &&& forall|i: int, j: int| 0 <= i < j < n ==> before(#[trigger] r[i] as int, #[trigger] r[j] as int)
}

/// Of any two different numbers below `n` one comes first, and coming first
/// carries over.
pub open spec fn strict_total(n: nat, before: spec_fn(int, int) -> bool) -> bool {
    &&& forall|a: int, b: int|
        0 <= a < n && 0 <= b < n && a != b ==> #[trigger] before(a, b) != #[trigger] before(b, a)
    &&& forall|a: int, b: int, c: int|
        0 <= a < n && 0 <= b < n && 0 <= c < n && #[trigger] before(a, b) && #[trigger] before(b, c)
            ==> before(a, c)
}

/// A strict total order on the positions of something.
pub trait Sorter {
    spec fn size(&self) -> nat;

    spec fn rule(&self) -> spec_fn(int, int) -> bool;

    /// Whether position `a` comes before position `b`.
    fn comes_before(&self, a: usize, b: usize) -> (r: bool)
        requires
            a < self.size(),
            b < self.size(),
        ensures
            r == (self.rule())(a as int, b as int),
    ;

    proof fn rule_is_total(&self)
        ensures
            strict_total(self.size(), self.rule()),
    ;
}

/// The positions of `s` in its order.
pub fn sort_positions<S: Sorter>(s: &S, n: usize) -> (r: Vec<usize>)
    requires
        n == s.size(),
    ensures
        in_order(r@, n as nat, s.rule()),
{
    let ghost before = s.rule();
    proof {
        s.rule_is_total();
    }
    let mut out: Vec<usize> = Vec::new();
    let mut i: usize = 0;
    while i < n
        invariant
            i <= n == s.size(),
            out@.len() == i,
            before == s.rule(),
            strict_total(n as nat, before),
            in_order(out@, i as nat, before),
        decreases n - i,
    {
        let mut p: usize = out.len();
        while p > 0
            invariant_except_break
                forall|k: int| p <= k < i ==> before(i as int, #[trigger] out@[k] as int),
            invariant
                p <= i < n == s.size(),
                out@.len() == i,
                before == s.rule(),
                strict_total(n as nat, before),
                in_order(out@, i as nat, before),
            ensures
                forall|k: int| p <= k < i ==> before(i as int, #[trigger] out@[k] as int),
                p > 0 ==> before(out@[p - 1] as int, i as int),
            decreases p,
        {
            let prev: usize = out[p - 1];
            assert(prev < i);
            if !s.comes_before(i, prev) {
                assert(before(prev as int, i as int) != before(i as int, prev as int));
                break;
            }
            p -= 1;
        }
        let ghost old_out = out@;
        out.insert(p, i);
        proof {
            let r = out@;
            assert(r == old_out.insert(p as int, i));
            assert forall|k: int| 0 <= k < i + 1 implies (#[trigger] r[k]) < i + 1 by {
                if k < p {
                    assert(r[k] == old_out[k]);
                } else if k > p {
                    assert(r[k] == old_out[k - 1]);
                }
            }
            assert forall|k: int| 0 <= k < p implies before(#[trigger] old_out[k] as int, i as int) by {
                if k < p - 1 {
                    assert(before(old_out[k] as int, old_out[p - 1] as int));
                }
            }
            assert forall|a: int, b: int| 0 <= a < b < i + 1 implies before(#[trigger] r[a] as int, #[trigger] r[b] as int) by {
                let x = if a < p { old_out[a] } else if a == p { i } else { old_out[a - 1] };
                let y = if b < p { old_out[b] } else if b == p { i } else { old_out[b - 1] };
                assert(r[a] == x && r[b] == y);
            }
        }
        i += 1;
    }
    out
}

/// Two lists in the same order are the same list.
pub proof fn order_is_unique(a: Seq<usize>, b: Seq<usize>, n: nat, before: spec_fn(int, int) -> bool)
    requires
        in_order(a, n, before),
        in_order(b, n, before),
        strict_total(n, before),
        forall|i: int| 0 <= i < n ==> !(#[trigger] before(i, i)),
    ensures
        a == b,
{
    if a != b {
        lemma_hits_all(a, n, before);
        lemma_hits_all(b, n, before);
        assert(a.len() == b.len());
        assert(exists|k: int| 0 <= k < n && a[k] != b[k]) by {
            if forall|k: int| 0 <= k < n ==> a[k] == b[k] {
                assert(a =~= b);
            }
        }
        let k0 = choose|k: int| 0 <= k < n && a[k] != b[k];
        let k = lemma_first_difference(a, b, k0);
        let x = a[k];
        let y = b[k];
        assert(b.contains(x));
        assert(a.contains(y));
        let i = choose|i: int| 0 <= i < n && b[i] == x;
        let j = choose|j: int| 0 <= j < n && a[j] == y;
        if i < k {
            assert(a[i] == x);
            assert(before(a[i] as int, a[k] as int));
        }
        if j < k {
            assert(b[j] == y);
            assert(before(b[j] as int, b[k] as int));
        }
        assert(before(b[k] as int, b[i] as int));
        assert(before(a[k] as int, a[j] as int));
        assert(before(x as int, y as int) && before(y as int, x as int));
    }
}

proof fn lemma_first_difference(a: Seq<usize>, b: Seq<usize>, k: int) -> (r: int)
    requires
        a.len() == b.len(),
        0 <= k < a.len(),
        a[k] != b[k],
    ensures
        0 <= r <= k,
        a[r] != b[r],
        forall|i: int| 0 <= i < r ==> a[i] == b[i],
    decreases k,
{
    if forall|i: int| 0 <= i < k ==> a[i] == b[i] {
        k
    } else {
        let j = choose|i: int| 0 <= i < k && a[i] != b[i];
        lemma_first_difference(a, b, j)
    }
}

/// Every number below `n` is in a list in order.
pub proof fn lemma_hits_all(r: Seq<usize>, n: nat, before: spec_fn(int, int) -> bool)
    requires
        in_order(r, n, before),
        forall|i: int| 0 <= i < n ==> !(#[trigger] before(i, i)),
    ensures
        forall|v: usize| v < n ==> r.contains(v),
{
    let s: Seq<int> = r.map_values(|x: usize| x as int);
    assert forall|i: int, j: int| 0 <= i < s.len() && 0 <= j < s.len() && i != j implies s[i] != s[j] by {
        if i < j {
            assert(before(r[i] as int, r[j] as int));
        } else {
            assert(before(r[j] as int, r[i] as int));
        }
    }
    assert(s.no_duplicates());
    s.unique_seq_to_set();
    let all = vstd::set_lib::set_int_range(0, n as int);
    vstd::set_lib::lemma_int_range(0, n as int);
    assert(s.to_set().subset_of(all)) by {
        assert forall|x: int| s.to_set().contains(x) implies all.contains(x) by {
            let i = choose|i: int| 0 <= i < s.len() && s[i] == x;
            assert(r[i] < n);
        }
    }
    vstd::set_lib::lemma_subset_equality(s.to_set(), all);
    assert forall|v: usize| v < n implies r.contains(v) by {
        assert(all.contains(v as int));
        assert(s.to_set().contains(v as int));
        let i = choose|i: int| 0 <= i < s.len() && s[i] == v as int;
        assert(r[i] == v);
    }
}

/// Texts in dictionary order of their code points.
pub open spec fn text_below(a: Seq<char>, b: Seq<char>) -> bool
    decreases a.len(),
{
    if b.len() == 0 {
        false
    } else if a.len() == 0 {
        true
    } else if a[0] != b[0] {
        a[0] < b[0]
    } else {
        text_below(a.subrange(1, a.len() as int), b.subrange(1, b.len() as int))
    }
}

/// Of two different texts one comes first.
pub proof fn text_order_is_total(a: Seq<char>, b: Seq<char>)
    requires
        a != b,
    ensures
        text_below(a, b) != text_below(b, a),
    decreases a.len(),
{
    if a.len() == 0 && b.len() == 0 {
        assert(a =~= b);
    } else if a.len() > 0 && b.len() > 0 && a[0] == b[0] {
        let x = a.subrange(1, a.len() as int);
        let y = b.subrange(1, b.len() as int);
        if x == y {
            assert(a =~= seq![a[0]] + x);
            assert(b =~= seq![b[0]] + y);
        }
        text_order_is_total(x, y);
    }
}

pub proof fn text_order_carries_over(a: Seq<char>, b: Seq<char>, c: Seq<char>)
    requires
        text_below(a, b),
        text_below(b, c),
    ensures
        text_below(a, c),
    decreases a.len(),
{
    if a.len() > 0 && b.len() > 0 && c.len() > 0 && a[0] == b[0] && b[0] == c[0] {
        text_order_carries_over(
            a.subrange(1, a.len() as int),
            b.subrange(1, b.len() as int),
            c.subrange(1, c.len() as int),
        );
    }
}

/// No text comes before itself.
pub proof fn text_order_is_strict(a: Seq<char>)
    ensures
        !text_below(a, a),
    decreases a.len(),
{
    if a.len() > 0 {
        text_order_is_strict(a.subrange(1, a.len() as int));
    }
}

/// Whether `a` comes before `b` in dictionary order.
pub fn text_less(a: &str, b: &str) -> (r: bool)
    ensures
        r == text_below(a@, b@),
{
    let x = chars_of(a);
    let y = chars_of(b);
    let mut i: usize = 0;
    assert(x@.subrange(0, x@.len() as int) =~= x@);
    assert(y@.subrange(0, y@.len() as int) =~= y@);
    while i < x.len() && i < y.len() && x[i] == y[i]
        invariant
            i <= x@.len(),
            i <= y@.len(),
            text_below(a@, b@) == text_below(x@.subrange(i as int, x@.len() as int), y@.subrange(i as int, y@.len() as int)),
        decreases x@.len() - i,
    {
        let ghost p = x@.subrange(i as int, x@.len() as int);
        let ghost q = y@.subrange(i as int, y@.len() as int);
        assert(p.subrange(1, p.len() as int) =~= x@.subrange(i + 1, x@.len() as int));
        assert(q.subrange(1, q.len() as int) =~= y@.subrange(i + 1, y@.len() as int));
        i += 1;
    }
    if i >= y.len() {
        false
    } else if i >= x.len() {
        true
    } else {
        x[i] < y[i]
    }
}

} // verus!
