//! Text as a sequence of characters: the few operations every other module
//! builds its output and its parsing from, with their meaning.

use vstd::prelude::*;

verus! {

/// `String::push`: the character given is appended to the string.
pub assume_specification[ String::push ](s: &mut String, c: char)
    ensures
        final(s)@ == old(s)@.push(c),
;

/// What `str::to_uppercase` makes of a text.
pub uninterp spec fn uppercase(s: Seq<char>) -> Seq<char>;

/// `str::to_uppercase`: the upper-case equivalent of the whole text by the
/// Unicode tables, which depends on the text alone.
#[verifier::external_body]
pub(crate) fn to_uppercase(s: &str) -> (r: String)
    ensures
        r@ == uppercase(s@),
{
    s.to_uppercase()
}

/// What `str::to_lowercase` makes of a text.
pub uninterp spec fn lowercase(s: Seq<char>) -> Seq<char>;

/// `str::to_lowercase`: the lower-case equivalent of the whole text by the
/// Unicode tables, which depends on the text alone.
#[verifier::external_body]
pub(crate) fn to_lowercase(s: &str) -> (r: String)
    ensures
        r@ == lowercase(s@),
{
    s.to_lowercase()
}

/// `n` copies of `c`.
pub open spec fn repeated(c: char, n: nat) -> Seq<char> {
    Seq::new(n, |i: int| c)
}

/// What has to be added to `len` columns to reach `width`.
pub open spec fn missing(len: nat, width: nat) -> nat {
    if len < width {
        (width - len) as nat
    } else {
        0
    }
}

/// `s` left-aligned in `width` columns; longer text is kept whole.
pub open spec fn left(s: Seq<char>, width: nat) -> Seq<char> {
    s + repeated(' ', missing(s.len(), width))
}

/// `s` right-aligned in `width` columns; longer text is kept whole.
pub open spec fn right(s: Seq<char>, width: nat) -> Seq<char> {
    repeated(' ', missing(s.len(), width)) + s
}

/// The decimal digit for `d`, where `d < 10`.
pub open spec fn digit(d: nat) -> char {
    ('0' as int + d) as char
}

/// `n` in decimal, without leading zeros.
pub open spec fn dec(n: nat) -> Seq<char>
    decreases n,
{
    if n < 10 {
        seq![digit(n)]
    } else {
        dec(n / 10).push(digit(n % 10))
    }
}

/// Exactly `places` decimal digits of `n`, leading zeros kept.
pub open spec fn dec_places(n: nat, places: nat) -> Seq<char>
    decreases places,
{
    if places == 0 {
        Seq::empty()
    } else {
        dec_places(n / 10, (places - 1) as nat).push(digit(n % 10))
    }
}

/// A decimal number is digits, at least one.
pub proof fn lemma_dec_digits(n: nat)
    ensures
        dec(n).len() > 0,
        forall|i: int| 0 <= i < dec(n).len() ==> is_digit(#[trigger] dec(n)[i]),
    decreases n,
{
    if n >= 10 {
        lemma_dec_digits(n / 10);
        assert forall|i: int| 0 <= i < dec(n).len() implies is_digit(#[trigger] dec(n)[i]) by {
            if i < dec(n / 10).len() {
                assert(dec(n)[i] == dec(n / 10)[i]);
            }
        }
    }
}

pub proof fn lemma_dec_places_digits(n: nat, places: nat)
    ensures
        dec_places(n, places).len() == places,
        forall|i: int| 0 <= i < places ==> is_digit(#[trigger] dec_places(n, places)[i]),
    decreases places,
{
    if places > 0 {
        let rest = dec_places(n / 10, (places - 1) as nat);
        lemma_dec_places_digits(n / 10, (places - 1) as nat);
        assert forall|i: int| 0 <= i < places implies is_digit(#[trigger] dec_places(n, places)[i]) by {
            if i < places - 1 {
                assert(dec_places(n, places)[i] == rest[i]);
            }
        }
    }
}

/// A character in the Unicode `White_Space` set.
pub open spec fn is_space(c: char) -> bool {
    ||| '\u{9}' <= c <= '\u{d}'
    ||| c == ' '
    ||| c == '\u{85}'
    ||| c == '\u{a0}'
    ||| c == '\u{1680}'
    ||| '\u{2000}' <= c <= '\u{200a}'
    ||| c == '\u{2028}'
    ||| c == '\u{2029}'
    ||| c == '\u{202f}'
    ||| c == '\u{205f}'
    ||| c == '\u{3000}'
}

/// `s` without the white space at its start.
pub open spec fn trim_start(s: Seq<char>) -> Seq<char>
    decreases s.len(),
{
    if s.len() > 0 && is_space(s[0]) {
        trim_start(s.subrange(1, s.len() as int))
    } else {
        s
    }
}

/// `s` without the white space at its end.
pub open spec fn trim_end(s: Seq<char>) -> Seq<char>
    decreases s.len(),
{
    if s.len() > 0 && is_space(s.last()) {
        trim_end(s.drop_last())
    } else {
        s
    }
}

/// `s` without the white space around it.
pub open spec fn trim(s: Seq<char>) -> Seq<char> {
    trim_end(trim_start(s))
}

pub open spec fn is_digit(c: char) -> bool {
    '0' <= c <= '9'
}

pub open spec fn is_lower(c: char) -> bool {
    'a' <= c <= 'z'
}

pub open spec fn is_upper(c: char) -> bool {
    'A' <= c <= 'Z'
}

pub open spec fn is_alnum(c: char) -> bool {
    is_digit(c) || is_lower(c) || is_upper(c)
}

/// The lower-case form of an ASCII letter; every other character is kept.
pub open spec fn lower_char(c: char) -> char {
    if is_upper(c) {
        (c as int + 32) as char
    } else {
        c
    }
}

/// `s` with every ASCII letter in lower case.
pub open spec fn lower(s: Seq<char>) -> Seq<char> {
    s.map_values(|c: char| lower_char(c))
}

pub open spec fn starts_with(s: Seq<char>, p: Seq<char>) -> bool {
    occurs_at(s, p, 0)
}

pub open spec fn ends_with(s: Seq<char>, p: Seq<char>) -> bool {
    occurs_at(s, p, s.len() - p.len())
}

/// `p` stands in `s` at position `i`.
pub open spec fn occurs_at(s: Seq<char>, p: Seq<char>, i: int) -> bool {
    0 <= i && i + p.len() <= s.len() && s.subrange(i, i + p.len()) == p
}

pub open spec fn contains(s: Seq<char>, p: Seq<char>) -> bool {
    exists|i: int| occurs_at(s, p, i)
}

/// The first position at or after `from` where `p` stands in `s`.
pub open spec fn find(s: Seq<char>, p: Seq<char>, from: int) -> Option<int>
    decreases s.len() + 1 - from,
{
    if from < 0 || from + p.len() > s.len() {
        None
    } else if occurs_at(s, p, from) {
        Some(from)
    } else {
        find(s, p, from + 1)
    }
}

/// The first position at or after `from` that holds `c`, or the length of `s`.
pub open spec fn index_of(s: Seq<char>, c: char, from: int) -> int
    decreases s.len() - from,
{
    if from >= s.len() || from < 0 {
        s.len() as int
    } else if s[from] == c {
        from
    } else {
        index_of(s, c, from + 1)
    }
}

/// The pieces of `s` between the separators `c`; one more than there are
/// separators.
pub open spec fn split(s: Seq<char>, c: char) -> Seq<Seq<char>>
    decreases s.len(),
{
    let i = index_of(s, c, 0);
    if 0 <= i < s.len() {
        seq![s.subrange(0, i)] + split(s.subrange(i + 1, s.len() as int), c)
    } else {
        seq![s]
    }
}

/// The pieces in order, `sep` between each two.
pub open spec fn join(parts: Seq<Seq<char>>, sep: Seq<char>) -> Seq<char>
    decreases parts.len(),
{
    if parts.len() == 0 {
        Seq::empty()
    } else if parts.len() == 1 {
        parts[0]
    } else {
        join(parts.drop_last(), sep) + sep + parts.last()
    }
}

/// The views of a vector of strings.
pub open spec fn texts(v: Seq<String>) -> Seq<Seq<char>> {
    v.map_values(|s: String| s@)
}

/// The lines of a block: each followed by a line feed.
pub open spec fn lines_text(lines: Seq<Seq<char>>) -> Seq<char>
    decreases lines.len(),
{
    if lines.len() == 0 {
        Seq::empty()
    } else {
        lines_text(lines.drop_last()) + lines.last() + seq!['\n']
    }
}

/// The words of `s`: what stands between white space.
pub open spec fn words(s: Seq<char>) -> Seq<Seq<char>>
    decreases s.len(),
{
    if s.len() == 0 {
        Seq::empty()
    } else if is_space(s[0]) {
        words(s.subrange(1, s.len() as int))
    } else {
        let k = word_end(s, 1);
        if 0 < k <= s.len() {
            seq![s.subrange(0, k)] + words(s.subrange(k, s.len() as int))
        } else {
            Seq::empty()
        }
    }
}

/// The first position at or after `i` that holds white space, or the length.
pub open spec fn word_end(s: Seq<char>, i: int) -> int
    decreases s.len() - i,
{
    if i < 0 || i >= s.len() {
        s.len() as int
    } else if is_space(s[i]) {
        i
    } else {
        word_end(s, i + 1)
    }
}

/// `s` with every occurrence of `from` replaced by `to`, from left to right.
pub open spec fn replaced(s: Seq<char>, from: Seq<char>, to: Seq<char>) -> Seq<char>
    decreases s.len(),
{
    match find(s, from, 0) {
        Some(i) => if from.len() > 0 && 0 <= i && i + from.len() <= s.len() {
            s.subrange(0, i) + to + replaced(s.subrange(i + from.len(), s.len() as int), from, to)
        } else {
            s
        },
        None => s,
    }
}

/// `s` without a plus sign before it.
pub open spec fn without_plus(s: Seq<char>) -> Seq<char> {
    if s.len() > 0 && s[0] == '+' {
        s.subrange(1, s.len() as int)
    } else {
        s
    }
}

pub open spec fn all_digits(s: Seq<char>) -> bool {
    forall|i: int| 0 <= i < s.len() ==> is_digit(#[trigger] s[i])
}

/// An unsigned number as it is read: digits, with a plus sign before them
/// allowed, of a value no larger than `max`.
pub open spec fn unsigned(s: Seq<char>, max: nat) -> Option<nat> {
    let d = without_plus(s);
    let v = crate::json::digits_value(d);
    if d.len() > 0 && all_digits(d) && v <= max {
        Some(v)
    } else {
        None
    }
}

/// What stands before and after the first `c`.
pub open spec fn cut(s: Seq<char>, c: char) -> Option<(Seq<char>, Seq<char>)> {
    let i = index_of(s, c, 0);
    if 0 <= i < s.len() {
        Some((s.subrange(0, i), s.subrange(i + 1, s.len() as int)))
    } else {
        None
    }
}

/// A line without the carriage return before its line feed.
pub open spec fn without_cr(s: Seq<char>) -> Seq<char> {
    if s.len() > 0 && s.last() == '\r' {
        s.drop_last()
    } else {
        s
    }
}

/// The lines of `s`, without their line ends; nothing follows the last line
/// feed.
pub open spec fn lines(s: Seq<char>) -> Seq<Seq<char>>
    decreases s.len(),
{
    let i = index_of(s, '\n', 0);
    if s.len() == 0 {
        Seq::empty()
    } else if 0 <= i < s.len() {
        seq![without_cr(s.subrange(0, i))] + lines(s.subrange(i + 1, s.len() as int))
    } else {
        seq![s]
    }
}

// ---------------------------------------------------------------- executable

/// The characters of `s`.
pub fn chars_of(s: &str) -> (v: Vec<char>)
    ensures
        v@ == s@,
{
    let mut v: Vec<char> = Vec::new();
    for c in it: s.chars()
        invariant
            v@ == s@.subrange(0, it.index() as int),
            it.seq() == s@,
    {
        v.push(c);
        assert(s@.subrange(0, it.index() + 1) =~= s@.subrange(0, it.index() as int).push(c));
    }
    assert(s@.subrange(0, s@.len() as int) =~= s@);
    v
}

/// The string made of the characters `v[from..to]`.
pub fn string_of(v: &Vec<char>, from: usize, to: usize) -> (s: String)
    requires
        from <= to <= v@.len(),
    ensures
        s@ == v@.subrange(from as int, to as int),
{
    let mut s = String::new();
    let mut i: usize = from;
    assert(v@.subrange(from as int, from as int) =~= Seq::<char>::empty());
    while i < to
        invariant
            from <= i <= to <= v@.len(),
            s@ == v@.subrange(from as int, i as int),
        decreases to - i,
    {
        s.push(v[i]);
        assert(v@.subrange(from as int, i + 1) =~= v@.subrange(from as int, i as int).push(v@[i as int]));
        i += 1;
    }
    s
}

/// Whether two strings hold the same characters.
pub fn same(a: &str, b: &str) -> (r: bool)
    ensures
        r == (a@ == b@),
{
    let x = chars_of(a);
    let y = chars_of(b);
    same_chars(&x, &y)
}

pub fn same_chars(x: &Vec<char>, y: &Vec<char>) -> (r: bool)
    ensures
        r == (x@ == y@),
{
    if x.len() != y.len() {
        return false;
    }
    let mut i: usize = 0;
    while i < x.len()
        invariant
            i <= x@.len() == y@.len(),
            x@.subrange(0, i as int) == y@.subrange(0, i as int),
        decreases x@.len() - i,
    {
        if x[i] != y[i] {
            assert(x@[i as int] != y@[i as int]);
            return false;
        }
        assert(x@.subrange(0, i + 1) =~= x@.subrange(0, i as int).push(x@[i as int]));
        assert(y@.subrange(0, i + 1) =~= y@.subrange(0, i as int).push(y@[i as int]));
        i += 1;
    }
    assert(x@.subrange(0, i as int) =~= x@);
    assert(y@.subrange(0, i as int) =~= y@);
    true
}

pub fn copy(s: &str) -> (r: String)
    ensures
        r@ == s@,
{
    String::from_str(s)
}

/// `a` followed by `b`.
pub fn concat2(a: &str, b: &str) -> (r: String)
    ensures
        r@ == a@ + b@,
{
    let mut s = String::from_str(a);
    s.append(b);
    s
}

pub fn concat3(a: &str, b: &str, c: &str) -> (r: String)
    ensures
        r@ == a@ + b@ + c@,
{
    let mut s = String::from_str(a);
    s.append(b);
    s.append(c);
    s
}

pub fn repeat(c: char, n: usize) -> (s: String)
    ensures
        s@ == repeated(c, n as nat),
{
    let mut s = String::new();
    let mut i: usize = 0;
    assert(repeated(c, 0) =~= Seq::<char>::empty());
    while i < n
        invariant
            i <= n,
            s@ == repeated(c, i as nat),
        decreases n - i,
    {
        s.push(c);
        assert(repeated(c, (i + 1) as nat) =~= repeated(c, i as nat).push(c));
        i += 1;
    }
    s
}

pub fn pad_right(s: &str, width: usize) -> (r: String)
    ensures
        r@ == left(s@, width as nat),
{
    let n: usize = s.unicode_len();
    let fill = repeat(' ', if n < width { width - n } else { 0 });
    concat2(s, fill.as_str())
}

pub fn pad_left(s: &str, width: usize) -> (r: String)
    ensures
        r@ == right(s@, width as nat),
{
    let n: usize = s.unicode_len();
    let fill = repeat(' ', if n < width { width - n } else { 0 });
    concat2(fill.as_str(), s)
}

pub fn digit_char(d: u8) -> (c: char)
    requires
        d < 10,
    ensures
        c == digit(d as nat),
{
    (48u8 + d) as char
}

/// `n` in decimal.
pub fn decimal(n: u128) -> (s: String)
    ensures
        s@ == dec(n as nat),
    decreases n,
{
    if n < 10 {
        let mut s = String::new();
        s.push(digit_char(n as u8));
        assert(s@ =~= seq![digit(n as nat)]);
        s
    } else {
        let mut s = decimal(n / 10);
        s.push(digit_char((n % 10) as u8));
        s
    }
}

pub fn decimal_places(n: u128, places: u8) -> (s: String)
    ensures
        s@ == dec_places(n as nat, places as nat),
    decreases places,
{
    if places == 0 {
        String::new()
    } else {
        let mut s = decimal_places(n / 10, places - 1);
        s.push(digit_char((n % 10) as u8));
        s
    }
}

pub fn space(c: char) -> (r: bool)
    ensures
        r == is_space(c),
{
    ('\u{9}' <= c && c <= '\u{d}') || c == ' ' || c == '\u{85}' || c == '\u{a0}' || c == '\u{1680}'
        || ('\u{2000}' <= c && c <= '\u{200a}') || c == '\u{2028}' || c == '\u{2029}'
        || c == '\u{202f}' || c == '\u{205f}' || c == '\u{3000}'
}

/// `str::trim_end`.
pub fn trimmed_end(s: &str) -> (r: String)
    ensures
        r@ == trim_end(s@),
{
    let v = chars_of(s);
    let to: usize = end_of_text(&v, v.len());
    assert(v@.subrange(0, v@.len() as int) =~= v@);
    string_of(&v, 0, to)
}

fn end_of_text(v: &Vec<char>, len: usize) -> (to: usize)
    requires
        len <= v@.len(),
    ensures
        to <= len,
        v@.subrange(0, to as int) == trim_end(v@.subrange(0, len as int)),
{
    let mut to: usize = len;
    while to > 0 && space(v[to - 1])
        invariant
            to <= len <= v@.len(),
            trim_end(v@.subrange(0, to as int)) == trim_end(v@.subrange(0, len as int)),
        decreases to,
    {
        let ghost cur = v@.subrange(0, to as int);
        assert(cur.drop_last() =~= v@.subrange(0, to - 1));
        assert(cur.last() == v@[to - 1]);
        to -= 1;
    }
    let ghost cur = v@.subrange(0, to as int);
    assert(to > 0 ==> cur.last() == v@[to - 1]);
    to
}

/// `str::trim`.
pub fn trimmed(s: &str) -> (r: String)
    ensures
        r@ == trim(s@),
{
    let v = chars_of(s);
    let mut from: usize = 0;
    assert(v@.subrange(0, v@.len() as int) =~= v@);
    while from < v.len() && space(v[from])
        invariant
            from <= v@.len(),
            trim_start(v@.subrange(from as int, v@.len() as int)) == trim_start(v@),
        decreases v@.len() - from,
    {
        let ghost cur = v@.subrange(from as int, v@.len() as int);
        assert(cur.subrange(1, cur.len() as int) =~= v@.subrange(from + 1, v@.len() as int));
        assert(cur[0] == v@[from as int]);
        from += 1;
    }
    let ghost cur = v@.subrange(from as int, v@.len() as int);
    assert(cur.len() > 0 ==> cur[0] == v@[from as int]);
    assert(cur == trim_start(v@));
    let t = string_of(&v, from, v.len());
    trimmed_end(t.as_str())
}

pub fn digit_value(c: char) -> (r: Option<u8>)
    ensures
        r is Some <==> is_digit(c),
        r is Some ==> r->0 < 10 && digit(r->0 as nat) == c,
{
    if '0' <= c && c <= '9' {
        Some(c as u8 - 48u8)
    } else {
        None
    }
}

pub fn lower_one(c: char) -> (r: char)
    ensures
        r == lower_char(c),
{
    if 'A' <= c && c <= 'Z' {
        (c as u8 + 32) as char
    } else {
        c
    }
}

/// `str::to_ascii_lowercase`.
pub fn lowered(s: &str) -> (r: String)
    ensures
        r@ == lower(s@),
{
    let v = chars_of(s);
    let mut o = String::new();
    let mut i: usize = 0;
    assert(o@ =~= lower(v@.subrange(0, 0)));
    while i < v.len()
        invariant
            i <= v@.len(),
            o@ == lower(v@.subrange(0, i as int)),
        decreases v@.len() - i,
    {
        o.push(lower_one(v[i]));
        assert(o@ =~= lower(v@.subrange(0, i + 1)));
        i += 1;
    }
    assert(v@.subrange(0, i as int) =~= v@);
    o
}

/// Whether `p` stands in `v` at `i`.
pub fn at(v: &Vec<char>, p: &Vec<char>, i: usize) -> (r: bool)
    ensures
        r == occurs_at(v@, p@, i as int),
{
    if i > v.len() || p.len() > v.len() - i {
        return false;
    }
    let n: usize = v.len();
    let mut k: usize = 0;
    while k < p.len()
        invariant
            k <= p@.len(),
            i + p@.len() <= v@.len() == n,
            v@.subrange(i as int, i + k) == p@.subrange(0, k as int),
        decreases p@.len() - k,
    {
        if v[i + k] != p[k] {
            assert(v@.subrange(i as int, i + p@.len())[k as int] != p@[k as int]);
            return false;
        }
        assert(v@.subrange(i as int, i + k + 1) =~= v@.subrange(i as int, i + k).push(v@[i + k]));
        assert(p@.subrange(0, k + 1) =~= p@.subrange(0, k as int).push(p@[k as int]));
        k += 1;
    }
    assert(p@.subrange(0, k as int) =~= p@);
    true
}

/// The first position at or after `from` where `p` stands in `v`.
pub fn find_chars(v: &Vec<char>, p: &Vec<char>, from: usize) -> (r: Option<usize>)
    requires
        from <= v@.len(),
    ensures
        match r {
            Some(i) => find(v@, p@, from as int) == Some(i as int),
            None => find(v@, p@, from as int) is None,
        },
{
    if p.len() > v.len() {
        return None;
    }
    let last: usize = v.len() - p.len();
    let mut i: usize = from;
    while i <= last
        invariant
            from <= i <= v@.len(),
            i <= last + 1 || i == from,
            last == v@.len() - p@.len(),
            find(v@, p@, i as int) == find(v@, p@, from as int),
        decreases v@.len() - i,
    {
        if at(v, p, i) {
            return Some(i);
        }
        if i == v.len() {
            assert(v@.subrange(i as int, i as int) =~= p@);
            return None;
        }
        i += 1;
    }
    None
}

pub proof fn lemma_find(s: Seq<char>, p: Seq<char>, from: int)
    requires
        0 <= from,
    ensures
        match find(s, p, from) {
            Some(i) => from <= i && occurs_at(s, p, i) && forall|j: int| from <= j < i ==> !occurs_at(s, p, j),
            None => forall|j: int| from <= j ==> !occurs_at(s, p, j),
        },
    decreases s.len() + 1 - from,
{
    if from + p.len() <= s.len() && !occurs_at(s, p, from) {
        lemma_find(s, p, from + 1);
    }
}

/// `str::contains`.
pub fn mentions(s: &str, p: &str) -> (r: bool)
    ensures
        r == contains(s@, p@),
{
    let v = chars_of(s);
    let q = chars_of(p);
    proof {
        lemma_find(v@, q@, 0);
    }
    find_chars(&v, &q, 0).is_some()
}

pub fn begins(s: &str, p: &str) -> (r: bool)
    ensures
        r == starts_with(s@, p@),
{
    let v = chars_of(s);
    let q = chars_of(p);
    at(&v, &q, 0)
}

pub fn ends(s: &str, p: &str) -> (r: bool)
    ensures
        r == ends_with(s@, p@),
{
    let v = chars_of(s);
    let q = chars_of(p);
    if q.len() > v.len() {
        return false;
    }
    at(&v, &q, v.len() - q.len())
}

/// The first position at or after `from` that holds `c`, or the length.
pub fn index_of_char(v: &Vec<char>, c: char, from: usize) -> (r: usize)
    requires
        from <= v@.len(),
    ensures
        r as int == index_of(v@, c, from as int),
        from <= r <= v@.len(),
        r < v@.len() ==> v@[r as int] == c,
        forall|j: int| from <= j < r ==> v@[j] != c,
{
    let mut i: usize = from;
    while i < v.len() && v[i] != c
        invariant
            from <= i <= v@.len(),
            index_of(v@, c, i as int) == index_of(v@, c, from as int),
            forall|j: int| from <= j < i ==> v@[j] != c,
        decreases v@.len() - i,
    {
        i += 1;
    }
    i
}

/// `str::split` on one character.
pub fn split_on(s: &str, c: char) -> (r: Vec<String>)
    ensures
        texts(r@) == split(s@, c),
{
    let v = chars_of(s);
    let mut out: Vec<String> = Vec::new();
    let mut from: usize = 0;
    let ghost mut rest = v@;
    assert(texts(out@) =~= Seq::<Seq<char>>::empty());
    assert(v@.subrange(0, v@.len() as int) =~= v@);
    loop
        invariant
            v@ == s@,
            from <= v@.len(),
            rest == v@.subrange(from as int, v@.len() as int),
            texts(out@) + split(rest, c) =~= split(v@, c),
        decreases v@.len() - from,
    {
        let i: usize = index_of_char(&v, c, from);
        proof {
            lemma_index_of_shift(v@, c, from as int, rest);
        }
        out.push(string_of(&v, from, i));
        if i >= v.len() {
            assert(split(rest, c) == seq![rest]);
            assert(texts(out@) =~= split(v@, c));
            return out;
        }
        let ghost k = i - from;
        assert(rest.subrange(0, k) =~= v@.subrange(from as int, i as int));
        assert(rest.subrange(k + 1, rest.len() as int) =~= v@.subrange(i + 1, v@.len() as int));
        from = i + 1;
        proof {
            rest = v@.subrange(from as int, v@.len() as int);
        }
    }
}

proof fn lemma_index_of_shift(v: Seq<char>, c: char, from: int, rest: Seq<char>)
    requires
        0 <= from <= v.len(),
        rest == v.subrange(from, v.len() as int),
    ensures
        index_of(rest, c, 0) == index_of(v, c, from) - from,
{
    lemma_index_of(rest, c, 0);
    lemma_index_of(v, c, from);
    let a = index_of(rest, c, 0);
    let b = index_of(v, c, from) - from;
    if a < b {
        assert(rest[a] == v[a + from]);
    } else if b < a {
        assert(rest[b] == v[b + from]);
    }
}

pub proof fn lemma_index_of(s: Seq<char>, c: char, from: int)
    requires
        0 <= from <= s.len(),
    ensures
        from <= index_of(s, c, from) <= s.len(),
        index_of(s, c, from) < s.len() ==> s[index_of(s, c, from)] == c,
        forall|j: int| from <= j < index_of(s, c, from) ==> s[j] != c,
    decreases s.len() - from,
{
    if from < s.len() && s[from] != c {
        lemma_index_of(s, c, from + 1);
    }
}

/// `[_]::join`.
pub fn joined(parts: &Vec<String>, sep: &str) -> (r: String)
    ensures
        r@ == join(texts(parts@), sep@),
{
    let mut o = String::new();
    let mut i: usize = 0;
    while i < parts.len()
        invariant
            i <= parts@.len(),
            o@ == join(texts(parts@.subrange(0, i as int)), sep@),
        decreases parts@.len() - i,
    {
        let ghost done = texts(parts@.subrange(0, i + 1));
        assert(done.drop_last() =~= texts(parts@.subrange(0, i as int)));
        assert(done.last() == parts@[i as int]@);
        if i > 0 {
            o.append(sep);
            o.append(parts[i].as_str());
        } else {
            o = copy(parts[i].as_str());
        }
        i += 1;
    }
    assert(parts@.subrange(0, i as int) =~= parts@);
    o
}

/// `str::lines`.
pub fn lines_of(s: &str) -> (r: Vec<String>)
    ensures
        texts(r@) == lines(s@),
{
    let v = chars_of(s);
    let mut out: Vec<String> = Vec::new();
    let mut from: usize = 0;
    let ghost mut rest = v@;
    assert(texts(out@) =~= Seq::<Seq<char>>::empty());
    assert(v@.subrange(0, v@.len() as int) =~= v@);
    while from < v.len()
        invariant
            v@ == s@,
            from <= v@.len(),
            rest == v@.subrange(from as int, v@.len() as int),
            texts(out@) + lines(rest) =~= lines(v@),
        decreases v@.len() - from,
    {
        let i: usize = index_of_char(&v, '\n', from);
        proof {
            lemma_index_of_shift(v@, '\n', from as int, rest);
        }
        if i >= v.len() {
            out.push(string_of(&v, from, i));
            assert(lines(rest) == seq![rest]);
            assert(texts(out@) =~= lines(v@));
            return out;
        }
        let end: usize = if i > from && v[i - 1] == '\r' { i - 1 } else { i };
        out.push(string_of(&v, from, end));
        let ghost k = i - from;
        let ghost line = rest.subrange(0, k);
        assert(line =~= v@.subrange(from as int, i as int));
        assert(without_cr(line) =~= v@.subrange(from as int, end as int));
        assert(rest.subrange(k + 1, rest.len() as int) =~= v@.subrange(i + 1, v@.len() as int));
        from = i + 1;
        proof {
            rest = v@.subrange(from as int, v@.len() as int);
        }
    }
    assert(lines(rest) =~= Seq::<Seq<char>>::empty());
    out
}

proof fn lemma_word_end(s: Seq<char>, i: int)
    requires
        0 <= i <= s.len(),
    ensures
        i <= word_end(s, i) <= s.len(),
        word_end(s, i) < s.len() ==> is_space(s[word_end(s, i)]),
        forall|j: int| i <= j < word_end(s, i) ==> !is_space(s[j]),
    decreases s.len() - i,
{
    if i < s.len() && !is_space(s[i]) {
        lemma_word_end(s, i + 1);
    }
}

proof fn lemma_word_end_shift(s: Seq<char>, from: int, i: int)
    requires
        0 <= from <= i <= s.len(),
    ensures
        word_end(s.subrange(from, s.len() as int), i - from) == word_end(s, i) - from,
    decreases s.len() - i,
{
    let t = s.subrange(from, s.len() as int);
    if i < s.len() {
        assert(t[i - from] == s[i]);
        if !is_space(s[i]) {
            lemma_word_end_shift(s, from, i + 1);
        }
    }
}

/// `str::split_whitespace`.
pub fn words_of(s: &str) -> (r: Vec<String>)
    ensures
        texts(r@) == words(s@),
{
    let v = chars_of(s);
    let n: usize = v.len();
    let mut out: Vec<String> = Vec::new();
    let mut i: usize = 0;
    assert(texts(out@) =~= Seq::<Seq<char>>::empty());
    assert(v@.subrange(0, v@.len() as int) =~= v@);
    while i < n
        invariant
            i <= n == v@.len(),
            v@ == s@,
            texts(out@) + words(v@.subrange(i as int, n as int)) =~= words(v@),
        decreases n - i,
    {
        let ghost rest = v@.subrange(i as int, n as int);
        assert(rest[0] == v@[i as int]);
        if space(v[i]) {
            assert(rest.subrange(1, rest.len() as int) =~= v@.subrange(i + 1, n as int));
            i += 1;
        } else {
            let start: usize = i;
            let mut k: usize = i + 1;
            while k < n && !space(v[k])
                invariant
                    start < k <= n == v@.len(),
                    word_end(v@, k as int) == word_end(v@, start + 1),
                decreases n - k,
            {
                k += 1;
            }
            proof {
                lemma_word_end_shift(v@, start as int, start + 1);
                assert(word_end(rest, 1) == k - start);
                assert(rest.subrange(0, k - start) =~= v@.subrange(start as int, k as int));
                assert(rest.subrange(k - start, rest.len() as int) =~= v@.subrange(k as int, n as int));
            }
            let ghost prev = out@;
            out.push(string_of(&v, start, k));
            assert(texts(out@) =~= texts(prev).push(v@.subrange(start as int, k as int)));
            i = k;
        }
    }
    assert(v@.subrange(i as int, n as int) =~= Seq::<char>::empty());
    out
}

proof fn lemma_find_shift(s: Seq<char>, p: Seq<char>, from: int, i: int)
    requires
        0 <= from <= i,
        from <= s.len(),
    ensures
        find(s.subrange(from, s.len() as int), p, i - from) == (match find(s, p, i) {
            Some(k) => Some(k - from),
            None => None,
        }),
    decreases s.len() + 1 - i,
{
    let t = s.subrange(from, s.len() as int);
    if i + p.len() <= s.len() {
        assert(t.subrange(i - from, i - from + p.len()) =~= s.subrange(i, i + p.len()));
        if !occurs_at(s, p, i) {
            lemma_find_shift(s, p, from, i + 1);
        }
    }
}

/// `str::replace`.
pub fn replace(s: &str, from: &str, to: &str) -> (r: String)
    requires
        from@.len() > 0,
    ensures
        r@ == replaced(s@, from@, to@),
{
    let v = chars_of(s);
    let p = chars_of(from);
    let n: usize = v.len();
    let mut o = String::new();
    let mut i: usize = 0;
    assert(v@.subrange(0, n as int) =~= v@);
    assert(o@ + replaced(v@, p@, to@) =~= replaced(v@, p@, to@));
    while i < n
        invariant
            i <= n == v@.len(),
            p@ == from@,
            p@.len() > 0,
            v@ == s@,
            o@ + replaced(v@.subrange(i as int, n as int), p@, to@) == replaced(v@, p@, to@),
        decreases n - i,
    {
        let ghost rest = v@.subrange(i as int, n as int);
        proof {
            lemma_find_shift(v@, p@, i as int, i as int);
            lemma_find(v@, p@, i as int);
        }
        match find_chars(&v, &p, i) {
            None => {
                let tail = string_of(&v, i, n);
                o.append(tail.as_str());
                assert(o@ == replaced(v@, p@, to@));
                return o;
            },
            Some(k) => {
                let ghost before = o@;
                let head = string_of(&v, i, k);
                o.append(head.as_str());
                o.append(to);
                proof {
                    assert(rest.subrange(0, k - i) =~= v@.subrange(i as int, k as int));
                    assert(rest.subrange(k - i + p@.len(), rest.len() as int) =~= v@.subrange(k + p@.len(), n as int));
                    let tail = replaced(v@.subrange(k + p@.len(), n as int), p@, to@);
                    assert(before + (v@.subrange(i as int, k as int) + to@ + tail) =~= before + v@.subrange(i as int, k as int) + to@ + tail);
                }
                i = k + p.len();
            },
        }
    }
    assert(v@.subrange(i as int, n as int) =~= Seq::<char>::empty());
    assert(replaced(Seq::<char>::empty(), p@, to@) =~= Seq::<char>::empty());
    assert(o@ + Seq::<char>::empty() =~= o@);
    o
}

/// `str::parse` for an unsigned number no larger than `max`.
pub fn parse_unsigned(s: &str, max: u64) -> (r: Option<u64>)
    ensures
        match r {
            Some(x) => unsigned(s@, max as nat) == Some(x as nat),
            None => unsigned(s@, max as nat) is None,
        },
{
    let v = chars_of(s);
    let from: usize = if v.len() > 0 && v[0] == '+' { 1 } else { 0 };
    let ghost d = without_plus(s@);
    assert(d =~= v@.subrange(from as int, v@.len() as int));
    if from >= v.len() {
        return None;
    }
    let mut acc: u128 = 0;
    let mut i: usize = from;
    let mut fits = true;
    assert(v@.subrange(from as int, from as int) =~= Seq::<char>::empty());
    while i < v.len()
        invariant
            from <= i <= v@.len(),
            v@ == s@,
            d == v@.subrange(from as int, v@.len() as int),
            d == without_plus(s@),
            forall|j: int| from <= j < i ==> is_digit(#[trigger] v@[j]),
            fits ==> acc <= max && acc == crate::json::digits_value(v@.subrange(from as int, i as int)),
            !fits ==> crate::json::digits_value(v@.subrange(from as int, i as int)) > max,
        decreases v@.len() - i,
    {
        let ghost cur = v@.subrange(from as int, i + 1);
        assert(cur.drop_last() =~= v@.subrange(from as int, i as int));
        assert(cur.last() == v@[i as int]);
        match digit_value(v[i]) {
            None => {
                assert(d[i - from] == v@[i as int]);
                assert(!all_digits(d));
                return None;
            },
            Some(x) => {
                if fits {
                    acc = acc * 10 + x as u128;
                    if acc > max as u128 {
                        fits = false;
                    }
                }
            },
        }
        i += 1;
    }
    assert forall|j: int| 0 <= j < d.len() implies is_digit(#[trigger] d[j]) by {
        assert(d[j] == v@[j + from]);
    }
    if fits {
        Some(acc as u64)
    } else {
        None
    }
}

/// `str::split_once` on one character.
pub fn cut_at(s: &str, c: char) -> (r: Option<(String, String)>)
    ensures
        match r {
            Some((a, b)) => cut(s@, c) == Some((a@, b@)),
            None => cut(s@, c) is None,
        },
{
    let v = chars_of(s);
    let i: usize = index_of_char(&v, c, 0);
    if i < v.len() {
        Some((string_of(&v, 0, i), string_of(&v, i + 1, v.len())))
    } else {
        None
    }
}

/// What follows the prefix `p`, where `s` starts with it.
pub open spec fn after_prefix(s: Seq<char>, p: Seq<char>) -> Option<Seq<char>> {
    if starts_with(s, p) {
        Some(s.subrange(p.len() as int, s.len() as int))
    } else {
        None
    }
}

/// `str::strip_prefix`.
pub fn without_prefix(s: &str, p: &str) -> (r: Option<String>)
    ensures
        match r {
            Some(t) => after_prefix(s@, p@) == Some(t@),
            None => after_prefix(s@, p@) is None,
        },
{
    let v = chars_of(s);
    let q = chars_of(p);
    if at(&v, &q, 0) {
        Some(string_of(&v, q.len(), v.len()))
    } else {
        None
    }
}

/// The first of the lines that starts with `p`.
pub open spec fn first_with(lines: Seq<Seq<char>>, p: Seq<char>) -> Option<Seq<char>>
    decreases lines.len(),
{
    if lines.len() == 0 {
        None
    } else {
        match first_with(lines.drop_last(), p) {
            Some(l) => Some(l),
            None => if starts_with(lines.last(), p) {
                Some(lines.last())
            } else {
                None
            },
        }
    }
}

proof fn lemma_first_with_stays(lines: Seq<Seq<char>>, k: int, p: Seq<char>)
    requires
        0 <= k <= lines.len(),
        first_with(lines.subrange(0, k), p) is Some,
    ensures
        first_with(lines, p) == first_with(lines.subrange(0, k), p),
    decreases lines.len() - k,
{
    if k < lines.len() {
        assert(lines.drop_last().subrange(0, k) =~= lines.subrange(0, k));
        lemma_first_with_stays(lines.drop_last(), k, p);
    } else {
        assert(lines.subrange(0, k) =~= lines);
    }
}

/// The position of the first line that starts with `p`, or the count of lines.
pub fn find_line(v: &Vec<String>, p: &str) -> (r: usize)
    ensures
        r <= v@.len(),
        r < v@.len() ==> first_with(texts(v@), p@) == Some(v@[r as int]@),
        r == v@.len() ==> first_with(texts(v@), p@) is None,
{
    let ghost all = texts(v@);
    let mut i: usize = 0;
    while i < v.len()
        invariant
            i <= v@.len(),
            all == texts(v@),
            first_with(all.subrange(0, i as int), p@) is None,
        decreases v@.len() - i,
    {
        assert(all.subrange(0, i + 1).drop_last() =~= all.subrange(0, i as int));
        assert(all.subrange(0, i + 1).last() == v@[i as int]@);
        if begins(v[i].as_str(), p) {
            proof {
                lemma_first_with_stays(all, i + 1, p@);
            }
            return i;
        }
        i += 1;
    }
    assert(all.subrange(0, i as int) =~= all);
    i
}

/// Whether the texts hold `s`.
pub fn holds(v: &Vec<String>, s: &str) -> (r: bool)
    ensures
        r == texts(v@).contains(s@),
{
    let mut i: usize = 0;
    while i < v.len()
        invariant
            i <= v@.len(),
            forall|j: int| 0 <= j < i ==> (#[trigger] v@[j])@ != s@,
        decreases v@.len() - i,
    {
        if same(v[i].as_str(), s) {
            assert(texts(v@)[i as int] == s@);
            return true;
        }
        i += 1;
    }
    assert forall|j: int| 0 <= j < texts(v@).len() implies texts(v@)[j] != s@ by {
        assert(texts(v@)[j] == v@[j]@);
    }
    false
}

/// An unsigned number in hexadecimal as it is read.
pub open spec fn hex_unsigned(s: Seq<char>, max: nat) -> Option<nat> {
    let d = without_plus(s);
    if d.len() > 0 && all_hex(d) && hex_digits_value(d) <= max {
        Some(hex_digits_value(d))
    } else {
        None
    }
}

pub open spec fn all_hex(s: Seq<char>) -> bool {
    forall|i: int| 0 <= i < s.len() ==> crate::json::hex_value(#[trigger] s[i]) is Some
}

pub open spec fn hex_digits_value(s: Seq<char>) -> nat
    decreases s.len(),
{
    if s.len() == 0 {
        0
    } else {
        hex_digits_value(s.drop_last()) * 16 + crate::json::hex_value(s.last())->0 as nat
    }
}

/// `u64::from_str_radix` at base sixteen.
pub fn parse_hex(s: &str) -> (r: Option<u64>)
    ensures
        match r {
            Some(x) => hex_unsigned(s@, u64::MAX as nat) == Some(x as nat),
            None => hex_unsigned(s@, u64::MAX as nat) is None,
        },
{
    let v = chars_of(s);
    let from: usize = if v.len() > 0 && v[0] == '+' { 1 } else { 0 };
    let ghost d = without_plus(s@);
    assert(d =~= v@.subrange(from as int, v@.len() as int));
    if from >= v.len() {
        return None;
    }
    let mut acc: u128 = 0;
    let mut i: usize = from;
    let mut fits = true;
    assert(v@.subrange(from as int, from as int) =~= Seq::<char>::empty());
    while i < v.len()
        invariant
            from <= i <= v@.len(),
            v@ == s@,
            d == v@.subrange(from as int, v@.len() as int),
            d == without_plus(s@),
            forall|j: int| from <= j < i ==> crate::json::hex_value(#[trigger] v@[j]) is Some,
            fits ==> acc <= u64::MAX && acc == hex_digits_value(v@.subrange(from as int, i as int)),
            !fits ==> hex_digits_value(v@.subrange(from as int, i as int)) > u64::MAX,
        decreases v@.len() - i,
    {
        let ghost cur = v@.subrange(from as int, i + 1);
        assert(cur.drop_last() =~= v@.subrange(from as int, i as int));
        assert(cur.last() == v@[i as int]);
        match crate::json::hex_digit(v[i]) {
            None => {
                assert(d[i - from] == v@[i as int]);
                assert(!all_hex(d));
                return None;
            },
            Some(x) => {
                if fits {
                    acc = acc * 16 + x as u128;
                    if acc > u64::MAX as u128 {
                        fits = false;
                    }
                }
            },
        }
        i += 1;
    }
    assert forall|j: int| 0 <= j < d.len() implies crate::json::hex_value(#[trigger] d[j]) is Some by {
        assert(d[j] == v@[j + from]);
    }
    if fits {
        Some(acc as u64)
    } else {
        None
    }
}

// ---------------------------------------------------------------------- paths

/// A character that parts a path. Windows has two.
pub open spec fn parts_path(c: char, windows: bool) -> bool {
    c == '/' || (windows && c == '\\')
}

/// A drive and nothing else, such as `C:`. What follows it stands right behind.
pub open spec fn is_drive(dir: Seq<char>) -> bool {
    dir.len() == 2 && ('a' <= dir[0] <= 'z' || 'A' <= dir[0] <= 'Z') && dir[1] == ':'
}

/// A name below a directory.
pub open spec fn below(dir: Seq<char>, name: Seq<char>, windows: bool) -> Seq<char> {
    if dir.len() == 0 {
        name
    } else if parts_path(dir.last(), windows) || (windows && is_drive(dir)) {
        dir + name
    } else if windows {
        dir + "\\"@ + name
    } else {
        dir + "/"@ + name
    }
}

/// Put a name below a directory.
pub fn path_below(dir: &str, name: &str, windows: bool) -> (r: String)
    ensures
        r@ == below(dir@, name@, windows),
{
    let d = chars_of(dir);
    let n: usize = d.len();
    if n == 0 {
        return copy(name);
    }
    let last = d[n - 1];
    let drive = n == 2 && (('a' <= d[0] && d[0] <= 'z') || ('A' <= d[0] && d[0] <= 'Z')) && d[1] == ':';
    if last == '/' || (windows && last == '\\') || (windows && drive) {
        concat2(dir, name)
    } else if windows {
        concat3(dir, "\\", name)
    } else {
        concat3(dir, "/", name)
    }
}

} // verus!
