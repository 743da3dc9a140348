//! Whole numbers of any size: just what exact rounding needs of them.

use vstd::prelude::*;

verus! {

/// `2^32` to the power of `n`.
pub open spec fn base(n: nat) -> nat
    decreases n,
{
    if n == 0 {
        1
    } else {
        0x1_0000_0000 * base((n - 1) as nat)
    }
}

/// The digit at a place, of base 2^32; nothing beyond the last one.
pub open spec fn digit_at(v: Seq<u32>, i: int) -> nat {
    if 0 <= i < v.len() {
        v[i] as nat
    } else {
        0
    }
}

/// The value of the first `n` digits, the least significant first.
pub open spec fn upto(v: Seq<u32>, n: nat) -> nat
    decreases n,
{
    if n == 0 {
        0
    } else {
        upto(v, (n - 1) as nat) + digit_at(v, n - 1) * base((n - 1) as nat)
    }
}

/// A whole number.
pub struct Natural {
    digits: Vec<u32>,
}

impl View for Natural {
    type V = nat;

    closed spec fn view(&self) -> nat {
        upto(self.digits@, self.digits@.len())
    }
}

proof fn lemma_base_grows(a: nat, b: nat)
    requires
        a <= b,
    ensures
        1 <= base(a) <= base(b),
    decreases b,
{
    if a < b {
        lemma_base_grows(a, (b - 1) as nat);
    } else if a > 0 {
        lemma_base_grows((a - 1) as nat, (b - 1) as nat);
    }
}

proof fn lemma_upto_bound(v: Seq<u32>, n: nat)
    ensures
        upto(v, n) < base(n),
    decreases n,
{
    if n > 0 {
        let m = (n - 1) as nat;
        lemma_upto_bound(v, m);
        let d = digit_at(v, n - 1);
        assert(d * base(m) <= 0xFFFF_FFFF * base(m)) by (nonlinear_arith)
            requires
                d <= 0xFFFF_FFFF,
        ;
    }
}

proof fn lemma_upto_same(a: Seq<u32>, b: Seq<u32>, n: nat)
    requires
        forall|j: int| 0 <= j < n ==> digit_at(a, j) == digit_at(b, j),
    ensures
        upto(a, n) == upto(b, n),
    decreases n,
{
    if n > 0 {
        lemma_upto_same(a, b, (n - 1) as nat);
    }
}

/// Digits beyond the last add nothing.
proof fn lemma_upto_beyond(v: Seq<u32>, n: nat)
    requires
        n >= v.len(),
    ensures
        upto(v, n) == upto(v, v.len()),
    decreases n,
{
    if n > v.len() {
        lemma_upto_beyond(v, (n - 1) as nat);
        assert(digit_at(v, n - 1) * base((n - 1) as nat) == 0) by (nonlinear_arith)
            requires
                digit_at(v, n - 1) == 0,
        ;
    }
}

/// A small number has no digits at high places.
proof fn lemma_high_digits(v: Seq<u32>, n: nat, m: nat)
    requires
        n <= m,
        upto(v, m) < base(n),
    ensures
        upto(v, m) == upto(v, n),
    decreases m,
{
    if n < m {
        let h = (m - 1) as nat;
        lemma_base_grows(n, h);
        let d = digit_at(v, m - 1);
        if d >= 1 {
            assert(d * base(h) >= base(h)) by (nonlinear_arith)
                requires
                    d >= 1,
            ;
        }
        assert(d == 0);
        assert(d * base(h) == 0) by (nonlinear_arith)
            requires
                d == 0,
        ;
        lemma_high_digits(v, n, h);
    }
}

impl Natural {
    pub fn nothing() -> (r: Natural)
        ensures
            r@ == 0,
    {
        Natural { digits: Vec::new() }
    }

    pub fn one() -> (r: Natural)
        ensures
            r@ == 1,
    {
        let mut r = Natural::nothing();
        r.scale(0, 1);
        r
    }

    pub fn copy(&self) -> (r: Natural)
        ensures
            r@ == self@,
    {
        let mut digits: Vec<u32> = Vec::new();
        let mut i: usize = 0;
        while i < self.digits.len()
            invariant
                i <= self.digits@.len(),
                digits@ == self.digits@.subrange(0, i as int),
            decreases self.digits@.len() - i,
        {
            digits.push(self.digits[i]);
            assert(digits@ =~= self.digits@.subrange(0, i + 1));
            i += 1;
        }
        assert(digits@ =~= self.digits@);
        Natural { digits }
    }

    /// `self * k + more`.
    pub fn scale(&mut self, k: u32, more: u32)
        ensures
            final(self)@ == old(self)@ * k + more,
    {
        let ghost v = self.digits@;
        let n: usize = self.digits.len();
        let mut out: Vec<u32> = Vec::new();
        let mut carry: u64 = more as u64;
        let mut i: usize = 0;
        assert(base(0) == 1);
        assert(carry * base(0) == carry) by (nonlinear_arith)
            requires
                base(0) == 1,
        ;
        assert(upto(v, 0) == 0 && upto(out@, 0) == 0);
        assert(0 * k == 0) by (nonlinear_arith);
        while i < n
            invariant
                i <= n == v.len(),
                v == self.digits@,
                out@.len() == i,
                carry <= 0xFFFF_FFFF,
                upto(out@, i as nat) + carry * base(i as nat) == upto(v, i as nat) * k + more,
            decreases n - i,
        {
            let d: u32 = self.digits[i];
            assert(0 <= d as int * k as int <= 0xFFFF_FFFF * 0xFFFF_FFFF) by (nonlinear_arith)
                requires
                    0 <= d <= 0xFFFF_FFFF,
                    0 <= k <= 0xFFFF_FFFF,
            ;
            let x: u64 = d as u64 * k as u64 + carry;
            let low: u32 = (x % 0x1_0000_0000) as u32;
            let high: u64 = x / 0x1_0000_0000;
            let ghost before = out@;
            let ghost held = carry;
            out.push(low);
            carry = high;
            proof {
                let b = base(i as nat);
                lemma_upto_same(out@, before, i as nat);
                assert(digit_at(out@, i as int) == low as nat);
                assert(upto(out@, (i + 1) as nat) == upto(before, i as nat) + low as nat * b);
                assert(upto(v, (i + 1) as nat) == upto(v, i as nat) + d as nat * b);
                assert(base((i + 1) as nat) == 0x1_0000_0000 * b);
                let hi = high as int;
                let lo = low as int;
                assert(x as int == hi * 0x1_0000_0000 + lo);
                let a = upto(v, i as nat) as int;
                let o = upto(before, i as nat) as int;
                assert(o + lo * b + hi * (0x1_0000_0000 * b) == (a + d as int * b) * k as int + more) by (nonlinear_arith)
                    requires
                        o + held as int * b == a * k as int + more,
                        d as int * k as int + held as int == hi * 0x1_0000_0000 + lo,
                ;
            }
            i += 1;
        }
        if carry > 0 {
            let ghost before = out@;
            out.push(carry as u32);
            proof {
                lemma_upto_same(out@, before, n as nat);
                assert(digit_at(out@, n as int) == carry as nat);
            }
        } else {
            assert(carry * base(n as nat) == 0) by (nonlinear_arith)
                requires
                    carry == 0,
            ;
        }
        self.digits = out;
    }

    /// `self < other`.
    pub fn below(&self, other: &Natural) -> (r: bool)
        ensures
            r == (self@ < other@),
    {
        let ghost a = self.digits@;
        let ghost b = other.digits@;
        let n: usize = if self.digits.len() >= other.digits.len() { self.digits.len() } else { other.digits.len() };
        proof {
            lemma_upto_beyond(a, n as nat);
            lemma_upto_beyond(b, n as nat);
        }
        let mut i: usize = n;
        while i > 0
            invariant
                i <= n,
                a == self.digits@,
                b == other.digits@,
                n >= a.len(),
                n >= b.len(),
                self@ == upto(a, n as nat),
                other@ == upto(b, n as nat),
                upto(a, n as nat) - upto(a, i as nat) == upto(b, n as nat) - upto(b, i as nat),
            decreases i,
        {
            let x: u32 = if i - 1 < self.digits.len() { self.digits[i - 1] } else { 0 };
            let y: u32 = if i - 1 < other.digits.len() { other.digits[i - 1] } else { 0 };
            proof {
                let m = (i - 1) as nat;
                assert(digit_at(a, i - 1) == x as nat && digit_at(b, i - 1) == y as nat);
                lemma_upto_bound(a, m);
                lemma_upto_bound(b, m);
                let w = base(m) as int;
                if x < y {
                    assert(x as int * w + w <= y as int * w) by (nonlinear_arith)
                        requires
                            x as int + 1 <= y as int,
                            w >= 0,
                    ;
                } else if y < x {
                    assert(y as int * w + w <= x as int * w) by (nonlinear_arith)
                        requires
                            y as int + 1 <= x as int,
                            w >= 0,
                    ;
                }
            }
            if x < y {
                return true;
            }
            if y < x {
                return false;
            }
            i -= 1;
        }
        false
    }

    /// `self - other`.
    pub fn take(&mut self, other: &Natural)
        requires
            other@ <= old(self)@,
        ensures
            final(self)@ == old(self)@ - other@,
    {
        let ghost v = self.digits@;
        let ghost b = other.digits@;
        let n: usize = self.digits.len();
        proof {
            lemma_upto_bound(v, n as nat);
            let m: nat = if b.len() >= n { b.len() } else { n as nat };
            lemma_upto_beyond(b, m);
            lemma_high_digits(b, n as nat, m);
        }
        let mut out: Vec<u32> = Vec::new();
        let mut borrow: u64 = 0;
        let mut i: usize = 0;
        assert(borrow * base(0) == 0) by (nonlinear_arith)
            requires
                borrow == 0,
        ;
        while i < n
            invariant
                i <= n == v.len(),
                v == self.digits@,
                b == other.digits@,
                out@.len() == i,
                borrow <= 1,
                upto(out@, i as nat) + upto(b, i as nat) == upto(v, i as nat) + borrow * base(i as nat),
            decreases n - i,
        {
            let x: u64 = self.digits[i] as u64;
            let y: u64 = (if i < other.digits.len() { other.digits[i] } else { 0 }) as u64 + borrow;
            let ghost before = out@;
            let ghost held = borrow;
            let d: u64 = if x >= y { x - y } else { x + 0x1_0000_0000 - y };
            borrow = if x >= y { 0 } else { 1 };
            out.push(d as u32);
            proof {
                let w = base(i as nat) as int;
                lemma_upto_same(out@, before, i as nat);
                assert(digit_at(out@, i as int) == d as nat);
                let yb = digit_at(b, i as int) as int;
                assert(y as int == yb + held as int);
                assert(base((i + 1) as nat) == 0x1_0000_0000 * w);
                let o = upto(before, i as nat) as int;
                let p = upto(b, i as nat) as int;
                let q = upto(v, i as nat) as int;
                assert(o + d as int * w + (p + yb * w) == q + x as int * w + borrow as int * (0x1_0000_0000 * w)) by (nonlinear_arith)
                    requires
                        o + p == q + held as int * w,
                        y as int == yb + held as int,
                        d as int == x as int - y as int + borrow as int * 0x1_0000_0000,
                ;
            }
            i += 1;
        }
        proof {
            lemma_upto_bound(out@, n as nat);
            if borrow == 1 {
                assert(borrow * base(n as nat) == base(n as nat)) by (nonlinear_arith)
                    requires
                        borrow == 1,
                ;
            } else {
                assert(borrow * base(n as nat) == 0) by (nonlinear_arith)
                    requires
                        borrow == 0,
                ;
            }
        }
        self.digits = out;
    }
}

} // verus!
