//! Minimal JSON value extraction.
//!
//! The documents read here are small and of known shape, and perhaps a dozen
//! scalars are needed from each, so this scans for a key and reads the value
//! that follows. It is escape-aware and does not match a key-shaped piece of a
//! string literal. It does not understand structure: of two keys with the same
//! name at different depths, the first one counts.

use vstd::prelude::*;
use crate::chars::{chars_of, digit_value, is_digit, string_of, texts};
use crate::double::decimal::double_of;
use crate::double::Double;

pub mod object;

verus! {

/// `char::from_u32`: the character with that code point, unless the value is a
/// surrogate or beyond the last code point.
pub assume_specification[ char::from_u32 ](i: u32) -> (r: Option<char>)
    ensures
        match r {
            Some(c) => c == i as char && !(0xD800 <= i < 0xE000) && i <= 0x10FFFF,
            None => 0xD800 <= i < 0xE000 || i > 0x10FFFF,
        },
;

// ------------------------------------------------------------------- finding

pub open spec fn is_json_space(c: char) -> bool {
    c == ' ' || c == '\t' || c == '\n' || c == '\u{c}' || c == '\r'
}

/// The first position at or after `i` that holds no white space.
pub open spec fn skip_spaces(s: Seq<char>, i: int) -> int
    decreases s.len() - i,
{
    if 0 <= i < s.len() && is_json_space(s[i]) {
        skip_spaces(s, i + 1)
    } else {
        i
    }
}

/// Where the text goes on after the string literal whose body is at `i`: past
/// its closing quote, or at the end of the text if it has none.
pub open spec fn after_string(s: Seq<char>, i: int) -> int
    decreases s.len() + 1 - i,
{
    if i < 0 || i >= s.len() {
        s.len() as int
    } else if s[i] == '\\' {
        after_string(s, i + 2)
    } else if s[i] == '"' {
        i + 1
    } else {
        after_string(s, i + 1)
    }
}

/// Where the value starts if a colon follows at `i`.
pub open spec fn value_after(s: Seq<char>, i: int) -> Option<int> {
    let colon = skip_spaces(s, i);
    if 0 <= colon < s.len() && s[colon] == ':' {
        Some(skip_spaces(s, colon + 1))
    } else {
        None
    }
}

/// The key as it is written: in quotes.
pub open spec fn quoted(key: Seq<char>) -> Seq<char> {
    seq!['"'] + key + seq!['"']
}

/// The position of the value of the first quoted key at or after `i`, where
/// `i` is outside any string literal.
pub open spec fn value_from(s: Seq<char>, name: Seq<char>, i: int) -> Option<int>
    decreases s.len() - i,
{
    if i < 0 || i >= s.len() {
        None
    } else if s[i] == '"' {
        if crate::chars::occurs_at(s, name, i) && value_after(s, i + name.len()) is Some {
            value_after(s, i + name.len())
        } else {
            proof {
                lemma_after_string(s, i + 1);
            }
            value_from(s, name, after_string(s, i + 1))
        }
    } else {
        value_from(s, name, i + 1)
    }
}

/// The position of the value of `key`.
pub open spec fn value_at(s: Seq<char>, key: Seq<char>) -> Option<int> {
    value_from(s, quoted(key), 0)
}

pub proof fn lemma_after_string(s: Seq<char>, i: int)
    requires
        0 <= i,
    ensures
        i <= s.len() ==> i <= after_string(s, i),
        after_string(s, i) <= s.len(),
    decreases s.len() + 1 - i,
{
    if i < s.len() {
        if s[i] == '\\' {
            lemma_after_string(s, i + 2);
        } else if s[i] != '"' {
            lemma_after_string(s, i + 1);
        }
    }
}

proof fn lemma_skip_spaces(s: Seq<char>, i: int)
    requires
        0 <= i,
    ensures
        i <= skip_spaces(s, i),
        i <= s.len() ==> skip_spaces(s, i) <= s.len(),
    decreases s.len() - i,
{
    if i < s.len() && is_json_space(s[i]) {
        lemma_skip_spaces(s, i + 1);
    }
}

proof fn lemma_value_from(s: Seq<char>, name: Seq<char>, i: int)
    requires
        0 <= i,
        name.len() > 0,
    ensures
        match value_from(s, name, i) {
            Some(j) => 0 <= j <= s.len(),
            None => true,
        },
    decreases s.len() - i,
{
    if i < s.len() {
        if s[i] == '"' {
            lemma_after_string(s, i + 1);
            let a = i + name.len();
            lemma_skip_spaces(s, a);
            lemma_skip_spaces(s, skip_spaces(s, a) + 1);
            lemma_value_from(s, name, after_string(s, i + 1));
        } else {
            lemma_value_from(s, name, i + 1);
        }
    }
}

fn skip_spaces_exec(b: &Vec<char>, i: usize) -> (r: usize)
    requires
        i <= b@.len(),
    ensures
        r as int == skip_spaces(b@, i as int),
        i <= r <= b@.len(),
{
    let mut j: usize = i;
    while j < b.len() && (b[j] == ' ' || b[j] == '\t' || b[j] == '\n' || b[j] == '\u{c}' || b[j] == '\r')
        invariant
            i <= j <= b@.len(),
            skip_spaces(b@, j as int) == skip_spaces(b@, i as int),
        decreases b@.len() - j,
    {
        j += 1;
    }
    j
}

fn after_string_exec(b: &Vec<char>, i: usize) -> (r: usize)
    requires
        i <= b@.len(),
    ensures
        r as int == after_string(b@, i as int),
        i <= r <= b@.len(),
{
    let n: usize = b.len();
    let mut j: usize = i;
    while j < n
        invariant
            i <= j <= n == b@.len(),
            after_string(b@, j as int) == after_string(b@, i as int),
        decreases n - j,
    {
        if b[j] == '\\' {
            assert(n - j <= 2 ==> after_string(b@, j + 2) == after_string(b@, n as int));
            j = if n - j > 2 { j + 2 } else { n };
        } else if b[j] == '"' {
            return j + 1;
        } else {
            j += 1;
        }
    }
    j
}

/// The position just past `"<key>":` and the white space behind it, where the
/// key is no part of a string literal.
fn find_key(b: &Vec<char>, key: &str) -> (r: Option<usize>)
    ensures
        match r {
            Some(j) => value_at(b@, key@) == Some(j as int) && j <= b@.len(),
            None => value_at(b@, key@) is None,
        },
{
    let k = chars_of(key);
    let mut name: Vec<char> = Vec::new();
    name.push('"');
    let mut q: usize = 0;
    while q < k.len()
        invariant
            q <= k@.len(),
            name@ =~= seq!['"'] + k@.subrange(0, q as int),
        decreases k@.len() - q,
    {
        name.push(k[q]);
        q += 1;
    }
    name.push('"');
    assert(name@ =~= quoted(key@));
    let n: usize = b.len();
    let mut i: usize = 0;
    while i < n
        invariant
            i <= n == b@.len(),
            name@ == quoted(key@),
            value_from(b@, name@, i as int) == value_at(b@, key@),
        decreases n - i,
    {
        if b[i] == '"' {
            if crate::chars::at(b, &name, i) {
                let colon: usize = skip_spaces_exec(b, i + name.len());
                if colon < n && b[colon] == ':' {
                    let start: usize = skip_spaces_exec(b, colon + 1);
                    return Some(start);
                }
            }
            i = after_string_exec(b, i + 1);
        } else {
            i += 1;
        }
    }
    None
}

/// The keys at or after `i`, in order, each as it is written between its
/// quotes, where `i` is outside any string literal.
pub open spec fn keys_from(s: Seq<char>, i: int) -> Seq<Seq<char>>
    decreases s.len() - i,
{
    if i < 0 || i >= s.len() {
        Seq::empty()
    } else if s[i] == '"' {
        let end = after_string(s, i + 1);
        proof {
            lemma_after_string(s, i + 1);
        }
        if value_after(s, end) is Some {
            seq![s.subrange(i + 1, end - 1)] + keys_from(s, end)
        } else {
            keys_from(s, end)
        }
    } else {
        keys_from(s, i + 1)
    }
}

/// Every key of a document, at any depth.
pub fn keys(src: &str) -> (r: Vec<String>)
    ensures
        texts(r@) == keys_from(src@, 0),
{
    let b = chars_of(src);
    let n: usize = b.len();
    let mut out: Vec<String> = Vec::new();
    let mut i: usize = 0;
    assert(texts(out@) + keys_from(b@, 0) =~= keys_from(b@, 0));
    while i < n
        invariant
            i <= n == b@.len(),
            b@ == src@,
            texts(out@) + keys_from(b@, i as int) == keys_from(b@, 0),
        decreases n - i,
    {
        if b[i] == '"' {
            let end: usize = after_string_exec(&b, i + 1);
            let colon: usize = skip_spaces_exec(&b, end);
            if colon < n && b[colon] == ':' {
                proof {
                    lemma_closed(b@, i + 1);
                }
                let key = string_of(&b, i + 1, end - 1);
                let ghost before = out@;
                out.push(key);
                assert(texts(out@) =~= texts(before).push(key@));
                assert(texts(before) + (seq![key@] + keys_from(b@, end as int)) =~= texts(out@) + keys_from(b@, end as int));
            }
            i = end;
        } else {
            i += 1;
        }
    }
    assert(texts(out@) + keys_from(b@, i as int) =~= texts(out@));
    out
}

/// A literal that ends before the text does has its closing quote.
proof fn lemma_closed(s: Seq<char>, i: int)
    requires
        0 <= i,
        after_string(s, i) < s.len(),
    ensures
        after_string(s, i) >= i + 1,
    decreases s.len() + 1 - i,
{
    if i < s.len() {
        if s[i] == '\\' {
            lemma_closed(s, i + 2);
        } else if s[i] != '"' {
            lemma_closed(s, i + 1);
        }
    }
}

// ------------------------------------------------------------------- numbers

pub open spec fn is_number_char(c: char) -> bool {
    is_digit(c) || c == '-' || c == '+' || c == '.' || c == 'e' || c == 'E'
}

/// The end of the run of number characters at `i`.
pub open spec fn number_end(s: Seq<char>, i: int) -> int
    decreases s.len() - i,
{
    if 0 <= i < s.len() && is_number_char(s[i]) {
        number_end(s, i + 1)
    } else {
        i
    }
}

/// The end of the run of digits at `i`.
pub open spec fn digits_end(s: Seq<char>, i: int) -> int
    decreases s.len() - i,
{
    if 0 <= i < s.len() && is_digit(s[i]) {
        digits_end(s, i + 1)
    } else {
        i
    }
}

/// A decimal number taken apart: its sign, its significant digits, and how
/// many of them (possibly none, possibly more than there are) stand before the
/// decimal point once the exponent is applied.
pub struct Decimal {
    pub negative: bool,
    pub digits: Seq<char>,
    pub point: int,
}

/// The value of a run of digits.
pub open spec fn digits_value(s: Seq<char>) -> nat
    decreases s.len(),
{
    if s.len() == 0 {
        0
    } else {
        digits_value(s.drop_last()) * 10 + (s.last() as int - '0' as int) as nat
    }
}

/// `10` to the power of `n`.
pub open spec fn pow10(n: nat) -> nat
    decreases n,
{
    if n == 0 {
        1
    } else {
        10 * pow10((n - 1) as nat)
    }
}

pub open spec fn is_sign(c: char) -> bool {
    c == '-' || c == '+'
}

/// The number written in `t`: an optional sign, digits with an optional
/// decimal point among or around them, and an optional exponent.
pub open spec fn decimal_of(t: Seq<char>) -> Option<Decimal> {
    let a: int = if t.len() > 0 && is_sign(t[0]) { 1 } else { 0 };
    let b = digits_end(t, a);
    let dot = b < t.len() && t[b] == '.';
    let c = if dot { digits_end(t, b + 1) } else { b };
    let fraction = if dot { t.subrange(b + 1, c) } else { Seq::empty() };
    let digits = t.subrange(a, b) + fraction;
    let negative = t.len() > 0 && t[0] == '-';
    if digits.len() == 0 {
        None
    } else if c == t.len() {
        Some(Decimal { negative, digits, point: b - a })
    } else if t[c] == 'e' || t[c] == 'E' {
        let d: int = if c + 1 < t.len() && is_sign(t[c + 1]) { c + 2 } else { c + 1 };
        let e = digits_value(t.subrange(d, t.len() as int));
        if d < t.len() && digits_end(t, d) == t.len() {
            Some(Decimal { negative, digits, point: if t[c + 1] == '-' { b - a - e } else { b - a + e } })
        } else {
            None
        }
    } else {
        None
    }
}

/// A count that does not fit is held at the largest one that does.
pub open spec fn at_most(n: nat, max: nat) -> nat {
    if n <= max {
        n
    } else {
        max
    }
}

/// The text of the number at `key`.
pub open spec fn number_text(s: Seq<char>, key: Seq<char>) -> Option<Seq<char>> {
    match value_at(s, key) {
        None => None,
        Some(start) => {
            let t = s.subrange(start, number_end(s, start));
            if decimal_of(t) is Some {
                Some(t)
            } else {
                None
            }
        },
    }
}

/// The number that a text writes.
pub open spec fn number_in(t: Seq<char>) -> Double {
    double_of(decimal_of(t)->0)
}

/// The number at `key`.
pub open spec fn number_at(s: Seq<char>, key: Seq<char>) -> Option<Double> {
    match number_text(s, key) {
        None => None,
        Some(t) => Some(number_in(t)),
    }
}

/// The number at `key` as a count: its whole part, nothing for a negative one.
pub open spec fn whole_at(s: Seq<char>, key: Seq<char>, max: nat) -> Option<nat> {
    match number_at(s, key) {
        None => None,
        Some(d) => Some(at_most(d.to_count(), max)),
    }
}

proof fn lemma_digits_end(s: Seq<char>, i: int)
    requires
        0 <= i <= s.len(),
    ensures
        i <= digits_end(s, i) <= s.len(),
        forall|j: int| i <= j < digits_end(s, i) ==> is_digit(s[j]),
    decreases s.len() - i,
{
    if i < s.len() && is_digit(s[i]) {
        lemma_digits_end(s, i + 1);
    }
}

fn digits_end_exec(v: &Vec<char>, i: usize) -> (r: usize)
    requires
        i <= v@.len(),
    ensures
        r as int == digits_end(v@, i as int),
        i <= r <= v@.len(),
        forall|j: int| i <= j < r ==> is_digit(v@[j]),
{
    let mut j: usize = i;
    while j < v.len() && '0' <= v[j] && v[j] <= '9'
        invariant
            i <= j <= v@.len(),
            digits_end(v@, j as int) == digits_end(v@, i as int),
            forall|k: int| i <= k < j ==> is_digit(v@[k]),
        decreases v@.len() - j,
    {
        j += 1;
    }
    j
}

fn number_end_exec(v: &Vec<char>, i: usize) -> (r: usize)
    requires
        i <= v@.len(),
    ensures
        r as int == number_end(v@, i as int),
        i <= r <= v@.len(),
{
    let mut j: usize = i;
    while j < v.len() && (('0' <= v[j] && v[j] <= '9') || v[j] == '-' || v[j] == '+' || v[j] == '.'
        || v[j] == 'e' || v[j] == 'E')
        invariant
            i <= j <= v@.len(),
            number_end(v@, j as int) == number_end(v@, i as int),
        decreases v@.len() - j,
    {
        j += 1;
    }
    j
}

/// Where the parts of a number stand in its text.
struct Parts {
    a: usize,
    b: usize,
    dot: bool,
    c: usize,
    d: usize,
}

spec fn parts_match(p: Parts, t: Seq<char>) -> bool {
    let a: int = if t.len() > 0 && is_sign(t[0]) { 1 } else { 0 };
    let b = digits_end(t, a);
    let dot = b < t.len() && t[b] == '.';
    let c = if dot { digits_end(t, b + 1) } else { b };
    let d: int = if c == t.len() { c } else if c + 1 < t.len() && is_sign(t[c + 1]) { c + 2 } else { c + 1 };
    &&& p.a == a && p.b == b && p.dot == dot && p.c == c && p.d == d
    &&& p.a <= p.b <= p.c <= p.d <= t.len()
    &&& dot ==> b + 1 <= c
    &&& decimal_of(t) is Some
    &&& forall|j: int| p.a <= j < p.b ==> is_digit(t[j])
    &&& forall|j: int| p.b < j < p.c ==> is_digit(t[j])
    &&& c < t.len() ==> forall|j: int| p.d <= j < t.len() ==> is_digit(t[j])
}

fn parts_of(t: &Vec<char>) -> (r: Option<Parts>)
    ensures
        r is Some <==> decimal_of(t@) is Some,
        r is Some ==> parts_match(r->0, t@),
{
    let n: usize = t.len();
    let a: usize = if n > 0 && (t[0] == '-' || t[0] == '+') { 1 } else { 0 };
    let b: usize = digits_end_exec(t, a);
    let dot: bool = b < n && t[b] == '.';
    let c: usize = if dot { digits_end_exec(t, b + 1) } else { b };
    if b - a == 0 && (!dot || c - b == 1) {
        return None;
    }
    if c == n {
        return Some(Parts { a, b, dot, c, d: c });
    }
    if t[c] != 'e' && t[c] != 'E' {
        return None;
    }
    let d: usize = if c + 1 < n && (t[c + 1] == '-' || t[c + 1] == '+') { c + 2 } else { c + 1 };
    if d < n && digits_end_exec(t, d) == n {
        Some(Parts { a, b, dot, c, d })
    } else {
        None
    }
}

/// Beyond this an exponent moves the point past any digit there can be.
spec fn exp_max() -> nat {
    0x1_0000_0000_0000_0000_0000
}

fn exponent_value(t: &Vec<char>, from: usize) -> (r: u128)
    requires
        from <= t@.len(),
        forall|j: int| from <= j < t@.len() ==> is_digit(t@[j]),
    ensures
        r as nat == at_most(digits_value(t@.subrange(from as int, t@.len() as int)), exp_max()),
{
    let mut e: u128 = 0;
    let mut i: usize = from;
    assert(t@.subrange(from as int, from as int) =~= Seq::<char>::empty());
    while i < t.len()
        invariant
            from <= i <= t@.len(),
            e as nat == at_most(digits_value(t@.subrange(from as int, i as int)), exp_max()),
            forall|j: int| from <= j < t@.len() ==> is_digit(t@[j]),
        decreases t@.len() - i,
    {
        let ghost cur = t@.subrange(from as int, i + 1);
        assert(cur.drop_last() =~= t@.subrange(from as int, i as int));
        assert(cur.last() == t@[i as int]);
        let x: u128 = match digit_value(t[i]) {
            Some(x) => x as u128,
            None => 0,
        };
        e = e * 10 + x;
        if e > 0x1_0000_0000_0000_0000_0000 {
            e = 0x1_0000_0000_0000_0000_0000;
        }
        i += 1;
    }
    e
}

/// A number taken apart: its sign, its digits and where the point stands. A
/// point that the exponent moves past any digit there can be is not told from
/// one that is farther.
pub fn read_decimal(text: &str) -> (r: Option<(bool, Vec<char>, i128)>)
    ensures
        match r {
            Some((negative, digits, point)) => {
                let d = decimal_of(text@)->0;
                &&& decimal_of(text@) is Some
                &&& negative == d.negative
                &&& digits@ == d.digits
                &&& forall|j: int| 0 <= j < digits@.len() ==> is_digit(#[trigger] digits@[j])
                &&& -0x2_0000_0000_0000_0000_0000 <= point <= 0x2_0000_0000_0000_0000_0000
                &&& point != d.point ==> (d.point <= point <= -(digits@.len() as int) - 1000 || d.point >= point >= digits@.len() + 1000)
            },
            None => decimal_of(text@) is None,
        },
{
    let t = chars_of(text);
    let p = match parts_of(&t) {
        Some(p) => p,
        None => return None,
    };
    let ghost d = decimal_of(t@)->0;
    let negative = t.len() > 0 && t[0] == '-';
    let mut digits: Vec<char> = Vec::new();
    let mut i: usize = p.a;
    assert(t@.subrange(p.a as int, p.a as int) =~= Seq::<char>::empty());
    while i < p.b
        invariant
            p.a <= i <= p.b <= t@.len(),
            digits@ == t@.subrange(p.a as int, i as int),
        decreases p.b - i,
    {
        digits.push(t[i]);
        assert(digits@ =~= t@.subrange(p.a as int, i + 1));
        i += 1;
    }
    if p.dot {
        let mut j: usize = p.b + 1;
        assert(digits@ =~= t@.subrange(p.a as int, p.b as int) + t@.subrange(p.b + 1, p.b + 1));
        while j < p.c
            invariant
                p.b + 1 <= j <= p.c <= t@.len(),
                digits@ == t@.subrange(p.a as int, p.b as int) + t@.subrange(p.b + 1, j as int),
            decreases p.c - j,
        {
            digits.push(t[j]);
            assert(digits@ =~= t@.subrange(p.a as int, p.b as int) + t@.subrange(p.b + 1, j + 1));
            j += 1;
        }
    }
    assert(digits@ =~= d.digits);
    let before: usize = p.b - p.a;
    let mut point: i128 = before as i128;
    if p.c < t.len() {
        let e: u128 = exponent_value(&t, p.d);
        if t[p.c + 1] == '-' {
            point = point - e as i128;
        } else {
            point = point + e as i128;
        }
    }
    Some((negative, digits, point))
}

fn subvec(b: &Vec<char>, from: usize, to: usize) -> (r: Vec<char>)
    requires
        from <= to <= b@.len(),
    ensures
        r@ == b@.subrange(from as int, to as int),
{
    let mut v: Vec<char> = Vec::new();
    let mut i: usize = from;
    assert(b@.subrange(from as int, from as int) =~= Seq::<char>::empty());
    while i < to
        invariant
            from <= i <= to <= b@.len(),
            v@ == b@.subrange(from as int, i as int),
        decreases to - i,
    {
        v.push(b[i]);
        assert(v@ =~= b@.subrange(from as int, i + 1));
        i += 1;
    }
    v
}

/// The number at `"<key>"` as it is written: an integer, a decimal, or either
/// with an exponent.
pub fn number_written(src: &str, key: &str) -> (r: Option<String>)
    ensures
        match r {
            Some(t) => number_text(src@, key@) == Some(t@),
            None => number_text(src@, key@) is None,
        },
{
    let b = chars_of(src);
    written_in(&b, key)
}

/// The number at `"<key>"`.
pub fn number(src: &str, key: &str) -> (r: Option<Double>)
    ensures
        r == number_at(src@, key@),
{
    match number_written(src, key) {
        Some(t) => Double::parse(t.as_str()),
        None => None,
    }
}

fn written_in(b: &Vec<char>, key: &str) -> (r: Option<String>)
    ensures
        match r {
            Some(t) => number_text(b@, key@) == Some(t@),
            None => number_text(b@, key@) is None,
        },
{
    let start: usize = match find_key(b, key) {
        Some(i) => i,
        None => return None,
    };
    let end: usize = number_end_exec(b, start);
    let t = subvec(b, start, end);
    match parts_of(&t) {
        Some(_) => Some(string_of(b, start, end)),
        None => None,
    }
}

/// The number at `"<key>"` as a count no larger than `max`: its whole part,
/// nothing for a negative one.
fn whole_upto(src: &str, key: &str, max: u64) -> (r: Option<u64>)
    ensures
        match r {
            Some(n) => whole_at(src@, key@, max as nat) == Some(n as nat),
            None => whole_at(src@, key@, max as nat) is None,
        },
{
    match number(src, key) {
        Some(d) => {
            let n: u64 = d.as_count();
            Some(if n <= max { n } else { max })
        },
        None => None,
    }
}

/// The number at `"<key>"` as a 64-bit count.
pub fn whole(src: &str, key: &str) -> (r: Option<u64>)
    ensures
        match r {
            Some(n) => whole_at(src@, key@, u64::MAX as nat) == Some(n as nat),
            None => whole_at(src@, key@, u64::MAX as nat) is None,
        },
{
    whole_upto(src, key, u64::MAX)
}

/// The number at `"<key>"` as a 32-bit count.
pub fn whole32(src: &str, key: &str) -> (r: Option<u32>)
    ensures
        match r {
            Some(n) => whole_at(src@, key@, u32::MAX as nat) == Some(n as nat),
            None => whole_at(src@, key@, u32::MAX as nat) is None,
        },
{
    match whole_upto(src, key, u32::MAX as u64) {
        Some(n) => Some(n as u32),
        None => None,
    }
}

/// The text of the first number whose key ends in `suffix`. Keys are read from
/// one quote to the next, and a key counts by its text wherever that text is a
/// key in the document.
pub open spec fn suffix_from(s: Seq<char>, suffix: Seq<char>, i: int) -> Option<Seq<char>>
    decreases s.len() - i,
{
    if i < 0 || i >= s.len() {
        None
    } else if s[i] == '"' {
        let close = crate::chars::index_of(s, '"', i + 1);
        if i < close < s.len() {
            let key = s.subrange(i + 1, close);
            if crate::chars::ends_with(key, suffix) && number_text(s, key) is Some {
                number_text(s, key)
            } else {
                suffix_from(s, suffix, close + 1)
            }
        } else {
            None
        }
    } else {
        suffix_from(s, suffix, i + 1)
    }
}

fn written_by_suffix(src: &str, suffix: &str) -> (r: Option<String>)
    ensures
        match r {
            Some(t) => suffix_from(src@, suffix@, 0) == Some(t@),
            None => suffix_from(src@, suffix@, 0) is None,
        },
{
    let b = chars_of(src);
    let mut i: usize = 0;
    while i < b.len()
        invariant
            b@ == src@,
            i <= b@.len(),
            suffix_from(b@, suffix@, i as int) == suffix_from(src@, suffix@, 0),
        decreases b@.len() - i,
    {
        if b[i] == '"' {
            let close: usize = crate::chars::index_of_char(&b, '"', i + 1);
            if close >= b.len() {
                return None;
            }
            let key = string_of(&b, i + 1, close);
            if crate::chars::ends(key.as_str(), suffix) {
                let n = written_in(&b, key.as_str());
                if n.is_some() {
                    return n;
                }
            }
            i = close + 1;
        } else {
            i += 1;
        }
    }
    None
}

/// The first number whose key ends in `suffix`.
pub open spec fn suffix_at(s: Seq<char>, suffix: Seq<char>) -> Option<Double> {
    match suffix_from(s, suffix, 0) {
        None => None,
        Some(t) => Some(number_in(t)),
    }
}

proof fn lemma_suffix_is_number(s: Seq<char>, suffix: Seq<char>, i: int)
    ensures
        suffix_from(s, suffix, i) matches Some(t) ==> decimal_of(t) is Some,
    decreases s.len() - i,
{
    if 0 <= i < s.len() {
        if s[i] == '"' {
            let close = crate::chars::index_of(s, '"', i + 1);
            if i < close < s.len() {
                lemma_suffix_is_number(s, suffix, close + 1);
            }
        } else {
            lemma_suffix_is_number(s, suffix, i + 1);
        }
    }
}

/// Number for the first key ending in `suffix`.
///
/// GGUF metadata names its keys by architecture, `qwen3.block_count` or
/// `llama.block_count`, so the suffix is what counts.
pub fn number_by_suffix(src: &str, suffix: &str) -> (r: Option<Double>)
    ensures
        r == suffix_at(src@, suffix@),
{
    proof {
        lemma_suffix_is_number(src@, suffix@, 0);
    }
    match written_by_suffix(src, suffix) {
        Some(t) => Double::parse(t.as_str()),
        None => None,
    }
}

// ------------------------------------------------------ booleans and strings

/// Boolean at `"<key>"`.
pub open spec fn boolean_at(s: Seq<char>, key: Seq<char>) -> Option<bool> {
    match value_at(s, key) {
        None => None,
        Some(i) => if crate::chars::occurs_at(s, seq!['t', 'r', 'u', 'e'], i) {
            Some(true)
        } else if crate::chars::occurs_at(s, seq!['f', 'a', 'l', 's', 'e'], i) {
            Some(false)
        } else {
            None
        },
    }
}

pub fn boolean(src: &str, key: &str) -> (r: Option<bool>)
    ensures
        r == boolean_at(src@, key@),
{
    let b = chars_of(src);
    let i: usize = match find_key(&b, key) {
        Some(i) => i,
        None => return None,
    };
    let yes: Vec<char> = vec!['t', 'r', 'u', 'e'];
    let no: Vec<char> = vec!['f', 'a', 'l', 's', 'e'];
    assert(yes@ =~= seq!['t', 'r', 'u', 'e']);
    assert(no@ =~= seq!['f', 'a', 'l', 's', 'e']);
    if crate::chars::at(&b, &yes, i) {
        Some(true)
    } else if crate::chars::at(&b, &no, i) {
        Some(false)
    } else {
        None
    }
}

/// The value of a hexadecimal digit.
pub open spec fn hex_value(c: char) -> Option<int> {
    if is_digit(c) {
        Some(c as int - '0' as int)
    } else if 'a' <= c <= 'f' {
        Some(c as int - 'a' as int + 10)
    } else if 'A' <= c <= 'F' {
        Some(c as int - 'A' as int + 10)
    } else {
        None
    }
}

/// The four hexadecimal digits at `i`.
pub open spec fn hex4_at(s: Seq<char>, i: int) -> Option<int> {
    if i < 0 || i + 4 > s.len() {
        None
    } else {
        let a = hex_value(s[i]);
        let b = hex_value(s[i + 1]);
        let c = hex_value(s[i + 2]);
        let d = hex_value(s[i + 3]);
        if a is Some && b is Some && c is Some && d is Some {
            Some(a->0 * 4096 + b->0 * 256 + c->0 * 16 + d->0)
        } else {
            None
        }
    }
}

/// The character a `\u` escape stands for, whose digits are at `i`, and where
/// the text goes on. A surrogate pair is one character; a lone surrogate is
/// none, and U+FFFD stands for it.
pub open spec fn unicode_at(s: Seq<char>, i: int) -> Option<(char, int)> {
    match hex4_at(s, i) {
        None => None,
        Some(cp) => if 0xD800 <= cp < 0xDC00 {
            let low = if i + 5 < s.len() && s[i + 4] == '\\' && s[i + 5] == 'u' {
                hex4_at(s, i + 6)
            } else {
                None
            };
            if low is Some && 0xDC00 <= low->0 < 0xE000 {
                Some(((0x10000 + (cp - 0xD800) * 1024 + (low->0 - 0xDC00)) as char, i + 10))
            } else {
                Some(('\u{FFFD}', i + 4))
            }
        } else if 0xDC00 <= cp < 0xE000 {
            Some(('\u{FFFD}', i + 4))
        } else {
            Some((cp as char, i + 4))
        },
    }
}

/// What an escape of one letter stands for.
pub open spec fn simple_escape(c: char) -> char {
    if c == 'n' {
        '\n'
    } else if c == 't' {
        '\t'
    } else if c == 'r' {
        '\r'
    } else if c == 'b' {
        '\u{8}'
    } else if c == 'f' {
        '\u{c}'
    } else {
        c
    }
}

fn unescaped(c: char) -> (r: char)
    ensures
        r == simple_escape(c),
{
    if c == 'n' {
        '\n'
    } else if c == 't' {
        '\t'
    } else if c == 'r' {
        '\r'
    } else if c == 'b' {
        '\u{8}'
    } else if c == 'f' {
        '\u{c}'
    } else {
        c
    }
}

/// `c` before what is left, if anything is.
pub open spec fn before(c: char, rest: Option<Seq<char>>) -> Option<Seq<char>> {
    match rest {
        Some(t) => Some(seq![c] + t),
        None => None,
    }
}

/// The text of the string literal whose body is at `i`, escapes decoded;
/// nothing for one that does not end or holds a broken `\u` escape.
pub open spec fn decoded(s: Seq<char>, i: int) -> Option<Seq<char>>
    decreases s.len() - i,
{
    if i < 0 || i >= s.len() {
        None
    } else if s[i] == '"' {
        Some(Seq::empty())
    } else if s[i] == '\\' {
        if i + 1 >= s.len() {
            None
        } else if s[i + 1] == 'u' {
            match unicode_at(s, i + 2) {
                Some((c, next)) => before(c, decoded(s, next)),
                None => None,
            }
        } else {
            before(simple_escape(s[i + 1]), decoded(s, i + 2))
        }
    } else {
        before(s[i], decoded(s, i + 1))
    }
}

/// String at `"<key>"`.
pub open spec fn string_at(s: Seq<char>, key: Seq<char>) -> Option<Seq<char>> {
    match value_at(s, key) {
        Some(i) => if 0 <= i < s.len() && s[i] == '"' {
            decoded(s, i + 1)
        } else {
            None
        },
        None => None,
    }
}

pub fn hex_digit(c: char) -> (r: Option<u32>)
    ensures
        match r {
            Some(x) => hex_value(c) == Some(x as int) && x < 16,
            None => hex_value(c) is None,
        },
{
    if '0' <= c && c <= '9' {
        Some(c as u32 - '0' as u32)
    } else if 'a' <= c && c <= 'f' {
        Some(c as u32 - 'a' as u32 + 10)
    } else if 'A' <= c && c <= 'F' {
        Some(c as u32 - 'A' as u32 + 10)
    } else {
        None
    }
}

/// Decode the four hex digits of a `\uXXXX` escape sitting at `i`.
fn hex4(b: &Vec<char>, i: usize) -> (r: Option<u32>)
    requires
        i <= b@.len(),
    ensures
        match r {
            Some(x) => hex4_at(b@, i as int) == Some(x as int) && x < 0x10000 && i + 4 <= b@.len(),
            None => hex4_at(b@, i as int) is None,
        },
{
    if b.len() - i < 4 {
        return None;
    }
    match (hex_digit(b[i]), hex_digit(b[i + 1]), hex_digit(b[i + 2]), hex_digit(b[i + 3])) {
        (Some(a), Some(p), Some(q), Some(d)) => Some(a * 4096 + p * 256 + q * 16 + d),
        _ => None,
    }
}

fn unicode(b: &Vec<char>, i: usize) -> (r: Option<(char, usize)>)
    requires
        i <= b@.len(),
    ensures
        match r {
            Some((c, next)) => unicode_at(b@, i as int) == Some((c, next as int)) && i < next <= b@.len(),
            None => unicode_at(b@, i as int) is None,
        },
{
    let n: usize = b.len();
    let cp: u32 = match hex4(b, i) {
        Some(cp) => cp,
        None => return None,
    };
    let next: usize = i + 4;
    if 0xD800 <= cp && cp < 0xDC00 {
        // High surrogate: a low surrogate must follow for a character outside
        // the BMP.
        if n - next >= 2 && b[next] == '\\' && b[next + 1] == 'u' {
            if let Some(low) = hex4(b, next + 2) {
                if 0xDC00 <= low && low < 0xE000 {
                    let full: u32 = 0x10000 + (cp - 0xD800) * 1024 + (low - 0xDC00);
                    if let Some(c) = char::from_u32(full) {
                        return Some((c, next + 6));
                    }
                }
            }
        }
        return Some(('\u{FFFD}', next));
    }
    match char::from_u32(cp) {
        Some(c) => Some((c, next)),
        None => Some(('\u{FFFD}', next)),
    }
}

/// String at `"<key>"`, with JSON escapes decoded.
pub fn string(src: &str, key: &str) -> (r: Option<String>)
    ensures
        match r {
            Some(t) => string_at(src@, key@) == Some(t@),
            None => string_at(src@, key@) is None,
        },
{
    let b = chars_of(src);
    let start: usize = match find_key(&b, key) {
        Some(i) => i,
        None => return None,
    };
    if start >= b.len() || b[start] != '"' {
        return None;
    }
    let mut out = String::new();
    let mut i: usize = start + 1;
    let n: usize = b.len();
    let ghost whole = decoded(b@, start + 1);
    assert(whole is Some ==> Seq::<char>::empty() + whole->0 =~= whole->0);
    while i < n
        invariant
            i <= n == b@.len(),
            b@ == src@,
            string_at(src@, key@) == whole,
            whole is Some <==> decoded(b@, i as int) is Some,
            whole is Some ==> whole->0 =~= out@ + decoded(b@, i as int)->0,
        decreases n - i,
    {
        if b[i] == '"' {
            return Some(out);
        } else if b[i] == '\\' {
            if n - i < 2 {
                return None;
            }
            if b[i + 1] == 'u' {
                match unicode(&b, i + 2) {
                    Some((c, next)) => {
                        out.push(c);
                        i = next;
                    },
                    None => return None,
                }
            } else {
                out.push(unescaped(b[i + 1]));
                i += 2;
            }
        } else {
            out.push(b[i]);
            i += 1;
        }
    }
    None
}

// ------------------------------------------------------- objects and arrays

/// The objects of an array whose elements are at `i`, given how deep in braces
/// `i` is and where the outermost of them opened.
pub open spec fn objects_from(s: Seq<char>, i: int, depth: nat, open: int) -> Seq<Seq<char>>
    decreases s.len() - i,
{
    if i < 0 || i >= s.len() {
        Seq::empty()
    } else if s[i] == '"' {
        proof {
            lemma_after_string(s, i + 1);
        }
        objects_from(s, after_string(s, i + 1), depth, open)
    } else if s[i] == '{' {
        objects_from(s, i + 1, depth + 1, if depth == 0 { i } else { open })
    } else if s[i] == '}' {
        if depth <= 1 {
            seq![s.subrange(open, i + 1)] + objects_from(s, i + 1, 0, open)
        } else {
            objects_from(s, i + 1, (depth - 1) as nat, open)
        }
    } else if s[i] == ']' && depth == 0 {
        Seq::empty()
    } else {
        objects_from(s, i + 1, depth, open)
    }
}

/// The objects inside the array at `"<key>"`.
pub open spec fn objects_at(s: Seq<char>, key: Seq<char>) -> Seq<Seq<char>> {
    match value_at(s, key) {
        Some(i) => if 0 <= i < s.len() && s[i] == '[' {
            objects_from(s, i + 1, 0, 0)
        } else {
            Seq::empty()
        },
        None => Seq::empty(),
    }
}

/// The views of a vector of string slices.
pub open spec fn slices(v: Seq<&str>) -> Seq<Seq<char>> {
    v.map_values(|s: &str| s@)
}

/// Slices of each object inside the array at `"<key>"`.
///
/// Brace depth and string literals are tracked, so white space between the
/// elements or a brace inside a string does not matter.
pub fn array_objects<'a>(src: &'a str, key: &str) -> (r: Vec<&'a str>)
    ensures
        slices(r@) == objects_at(src@, key@),
{
    let b = chars_of(src);
    let mut out: Vec<&'a str> = Vec::new();
    assert(slices(out@) =~= Seq::<Seq<char>>::empty());
    let start: usize = match find_key(&b, key) {
        Some(i) => i,
        None => return out,
    };
    if start >= b.len() || b[start] != '[' {
        return out;
    }
    let mut i: usize = start + 1;
    let mut depth: usize = 0;
    let mut open: usize = 0;
    let n: usize = b.len();
    assert(slices(out@) + objects_at(src@, key@) =~= objects_at(src@, key@));
    while i < n
        invariant
            i <= n == b@.len(),
            b@ == src@,
            depth <= i,
            open <= i,
            slices(out@) + objects_from(b@, i as int, depth as nat, open as int) =~= objects_at(src@, key@),
        decreases n - i,
    {
        if b[i] == '"' {
            i = after_string_exec(&b, i + 1);
        } else {
            if b[i] == '{' {
                if depth == 0 {
                    open = i;
                }
                depth += 1;
            } else if b[i] == '}' {
                if depth > 0 {
                    depth -= 1;
                }
                if depth == 0 {
                    let ghost prev = slices(out@);
                    out.push(src.substring_char(open, i + 1));
                    assert(slices(out@) =~= prev.push(b@.subrange(open as int, i + 1)));
                }
            } else if b[i] == ']' && depth == 0 {
                assert(slices(out@) =~= objects_at(src@, key@));
                return out;
            }
            i += 1;
        }
    }
    assert(slices(out@) =~= objects_at(src@, key@));
    out
}

/// The end of the object that is open `depth` braces deep at `i`.
pub open spec fn object_end(s: Seq<char>, i: int, depth: nat) -> Option<int>
    decreases s.len() - i,
{
    if i < 0 || i >= s.len() {
        None
    } else if s[i] == '"' {
        proof {
            lemma_after_string(s, i + 1);
        }
        object_end(s, after_string(s, i + 1), depth)
    } else if s[i] == '{' {
        object_end(s, i + 1, depth + 1)
    } else if s[i] == '}' {
        if depth <= 1 {
            Some(i + 1)
        } else {
            object_end(s, i + 1, (depth - 1) as nat)
        }
    } else {
        object_end(s, i + 1, depth)
    }
}

/// The object at `"<key>"`, its braces counted in.
pub open spec fn object_text(s: Seq<char>, key: Seq<char>) -> Option<Seq<char>> {
    match value_at(s, key) {
        Some(i) => if 0 <= i < s.len() && s[i] == '{' {
            match object_end(s, i + 1, 1) {
                Some(end) => Some(s.subrange(i, end)),
                None => None,
            }
        } else {
            None
        },
        None => None,
    }
}

/// The object value at `"<key>"`, as a slice including its braces.
pub fn object_at<'a>(src: &'a str, key: &str) -> (r: Option<&'a str>)
    ensures
        match r {
            Some(t) => object_text(src@, key@) == Some(t@),
            None => object_text(src@, key@) is None,
        },
{
    let b = chars_of(src);
    let start: usize = match find_key(&b, key) {
        Some(i) => i,
        None => return None,
    };
    if start >= b.len() || b[start] != '{' {
        return None;
    }
    let mut i: usize = start + 1;
    let mut depth: usize = 1;
    let n: usize = b.len();
    while i < n
        invariant
            start < i <= n == b@.len(),
            b@ == src@,
            1 <= depth <= i,
            value_at(src@, key@) == Some(start as int),
            b@[start as int] == '{',
            object_end(b@, i as int, depth as nat) == object_end(b@, start + 1, 1),
        decreases n - i,
    {
        if b[i] == '"' {
            i = after_string_exec(&b, i + 1);
        } else {
            if b[i] == '{' {
                depth += 1;
            } else if b[i] == '}' {
                depth -= 1;
                if depth == 0 {
                    return Some(src.substring_char(start, i + 1));
                }
            }
            i += 1;
        }
    }
    None
}

// ------------------------------------------------------------------- writing

/// The hexadecimal digit for `d`, where `d < 16`.
pub open spec fn hex_char(d: int) -> char {
    if d < 10 {
        ('0' as int + d) as char
    } else {
        ('a' as int + d - 10) as char
    }
}

/// How a character is written inside a JSON string.
pub open spec fn escape_char(c: char) -> Seq<char> {
    if c == '"' {
        seq!['\\', '"']
    } else if c == '\\' {
        seq!['\\', '\\']
    } else if c == '\n' {
        seq!['\\', 'n']
    } else if c == '\r' {
        seq!['\\', 'r']
    } else if c == '\t' {
        seq!['\\', 't']
    } else if c <= '\u{1f}' {
        seq!['\\', 'u', '0', '0', hex_char(c as int / 16), hex_char(c as int % 16)]
    } else {
        seq![c]
    }
}

/// `s` as it stands inside a JSON string.
pub open spec fn escaped(s: Seq<char>) -> Seq<char>
    decreases s.len(),
{
    if s.len() == 0 {
        Seq::empty()
    } else {
        escaped(s.drop_last()) + escape_char(s.last())
    }
}

fn hex_char_exec(d: u32) -> (c: char)
    requires
        d < 16,
    ensures
        c == hex_char(d as int),
{
    if d < 10 {
        (48u8 + d as u8) as char
    } else {
        (97u8 + (d as u8 - 10)) as char
    }
}

fn escape_into(o: &mut String, c: char)
    ensures
        final(o)@ == old(o)@ + escape_char(c),
{
    if c == '"' {
        o.push('\\');
        o.push('"');
    } else if c == '\\' {
        o.push('\\');
        o.push('\\');
    } else if c == '\n' {
        o.push('\\');
        o.push('n');
    } else if c == '\r' {
        o.push('\\');
        o.push('r');
    } else if c == '\t' {
        o.push('\\');
        o.push('t');
    } else if c <= '\u{1f}' {
        o.push('\\');
        o.push('u');
        o.push('0');
        o.push('0');
        o.push(hex_char_exec(c as u32 / 16));
        o.push(hex_char_exec(c as u32 % 16));
    } else {
        o.push(c);
    }
    assert(o@ =~= old(o)@ + escape_char(c));
}

/// `s` with quotes, backslashes and control characters escaped.
pub fn escape(s: &str) -> (r: String)
    ensures
        r@ == escaped(s@),
{
    let v = chars_of(s);
    let mut o = String::new();
    let mut i: usize = 0;
    while i < v.len()
        invariant
            v@ == s@,
            i <= v@.len(),
            o@ == escaped(v@.subrange(0, i as int)),
        decreases v@.len() - i,
    {
        assert(v@.subrange(0, i + 1).drop_last() =~= v@.subrange(0, i as int));
        escape_into(&mut o, v[i]);
        i += 1;
    }
    assert(v@.subrange(0, i as int) =~= v@);
    o
}

// ---------------------------------------------------------------------- laws

proof fn lemma_escaped_first(s: Seq<char>)
    requires
        s.len() > 0,
    ensures
        escaped(s) == escape_char(s[0]) + escaped(s.subrange(1, s.len() as int)),
    decreases s.len(),
{
    let rest = s.subrange(1, s.len() as int);
    if s.len() == 1 {
        assert(s.drop_last() =~= Seq::<char>::empty());
        assert(rest =~= Seq::<char>::empty());
        assert(escaped(s) =~= escape_char(s[0]) + escaped(rest));
    } else {
        lemma_escaped_first(s.drop_last());
        assert(s.drop_last().subrange(1, s.len() - 1) =~= rest.drop_last());
        assert(escaped(s) =~= escape_char(s[0]) + escaped(rest));
    }
}

proof fn lemma_escape_char_decodes(all: Seq<char>, i: int, c: char, rest: Seq<char>)
    requires
        0 <= i,
        i + escape_char(c).len() <= all.len(),
        forall|k: int| 0 <= k < escape_char(c).len() ==> all[i + k] == #[trigger] escape_char(c)[k],
        decoded(all, i + escape_char(c).len()) == Some(rest),
    ensures
        decoded(all, i) == Some(seq![c] + rest),
{
    let e = escape_char(c);
    assert(all[i + 0] == e[0]);
    if e.len() == 2 {
        assert(all[i + 1] == e[1]);
    } else if e.len() == 6 {
        assert(all[i + 1] == e[1]);
        assert(all[i + 2] == e[2]);
        assert(all[i + 3] == e[3]);
        assert(all[i + 4] == e[4]);
        assert(all[i + 5] == e[5]);
        let hi = c as int / 16;
        let lo = c as int % 16;
        assert(hex_value(hex_char(hi)) == Some(hi));
        assert(hex_value(hex_char(lo)) == Some(lo));
        assert(hex4_at(all, i + 2) == Some(c as int));
    }
}

/// What [`escape`] writes, [`string`] reads back: a string literal whose body
/// is `escaped(s)`, wherever it stands and whatever follows it, is decoded to
/// `s`.
pub proof fn escaped_text_is_read_back(pre: Seq<char>, s: Seq<char>, post: Seq<char>)
    ensures
        decoded(pre + escaped(s) + seq!['"'] + post, pre.len() as int) == Some(s),
    decreases s.len(),
{
    let all = pre + escaped(s) + seq!['"'] + post;
    let i = pre.len() as int;
    if s.len() == 0 {
        assert(all[i] == '"');
        assert(decoded(all, i)->0 =~= s);
    } else {
        let c = s[0];
        let e = escape_char(c);
        let rest = s.subrange(1, s.len() as int);
        lemma_escaped_first(s);
        escaped_text_is_read_back(pre + e, rest, post);
        assert(pre + e + escaped(rest) + seq!['"'] + post =~= all);
        assert forall|k: int| 0 <= k < e.len() implies all[i + k] == #[trigger] e[k] by {
            assert((e + escaped(rest))[k] == e[k]);
        }
        lemma_escape_char_decodes(all, i, c, rest);
        assert(seq![c] + rest =~= s);
    }
}

} // verus!
