//! Writing a flat JSON object, and what reading it gives back.

use vstd::prelude::*;
use crate::chars::{copy, dec, lemma_dec_digits, lemma_dec_places_digits, occurs_at};
use crate::double::{fixed_text, Double};
use crate::json::{
    after_string, boolean_at, decimal_of, decoded, digits_end, is_number_char, is_sign, number_end, number_text, quoted, skip_spaces, string_at,
    value_after, value_at, value_from,
};

verus! {

/// A member of an object: a text, which is written in quotes, or a number or a
/// truth value as it stands.
pub struct Member {
    pub key: &'static str,
    pub value: String,
    pub text: bool,
}

/// What a [`Member`] holds.
pub struct MemberView {
    pub key: Seq<char>,
    pub value: Seq<char>,
    pub text: bool,
}

impl View for Member {
    type V = MemberView;

    open spec fn view(&self) -> MemberView {
        MemberView { key: self.key@, value: self.value@, text: self.text }
    }
}

pub open spec fn member_views(v: Seq<Member>) -> Seq<MemberView> {
    v.map_values(|m: Member| m@)
}

pub open spec fn text_member(key: Seq<char>, value: Seq<char>) -> MemberView {
    MemberView { key, value, text: true }
}

pub open spec fn bare_member(key: Seq<char>, value: Seq<char>) -> MemberView {
    MemberView { key, value, text: false }
}

impl MemberView {
    /// The value as it is written.
    pub open spec fn raw(self) -> Seq<char> {
        if self.text {
            quoted(self.value)
        } else {
            self.value
        }
    }

    /// `"key":value`.
    pub open spec fn written(self) -> Seq<char> {
        quoted(self.key) + seq![':'] + self.raw()
    }

    /// Nothing in the member needs an escape.
    pub open spec fn is_plain(self) -> bool {
        plain(self.key) && plain(self.value)
    }
}

/// Neither a quote nor a backslash in it.
pub open spec fn plain(s: Seq<char>) -> bool {
    forall|i: int| 0 <= i < s.len() ==> (#[trigger] s[i]) != '"' && s[i] != '\\'
}

/// The members, with commas between them.
pub open spec fn members_text(m: Seq<MemberView>) -> Seq<char>
    decreases m.len(),
{
    if m.len() == 0 {
        Seq::empty()
    } else if m.len() == 1 {
        m[0].written()
    } else {
        members_text(m.drop_last()) + seq![','] + m.last().written()
    }
}

/// The object on one line.
pub open spec fn flat_object(m: Seq<MemberView>) -> Seq<char> {
    seq!['{'] + members_text(m) + seq!['}']
}

pub fn text_of(key: &'static str, value: &str) -> (m: Member)
    ensures
        m@ == text_member(key@, value@),
{
    Member { key, value: copy(value), text: true }
}

pub fn bare_of(key: &'static str, value: String) -> (m: Member)
    ensures
        m@ == bare_member(key@, value@),
{
    Member { key, value, text: false }
}

/// Write the members as an object. Texts are written as they are.
pub fn write_object(members: &Vec<Member>) -> (o: String)
    ensures
        o@ == flat_object(member_views(members@)),
{
    let ghost all = member_views(members@);
    let mut o = String::new();
    o.push('{');
    let mut i: usize = 0;
    assert(o@ =~= seq!['{'] + members_text(all.subrange(0, 0)));
    while i < members.len()
        invariant
            i <= members@.len(),
            all == member_views(members@),
            all.len() == members@.len(),
            o@ == seq!['{'] + members_text(all.subrange(0, i as int)),
        decreases members@.len() - i,
    {
        let ghost next = all.subrange(0, i + 1);
        assert(next.drop_last() =~= all.subrange(0, i as int));
        assert(next.last() == members@[i as int]@);
        let ghost start = o@;
        if i > 0 {
            o.push(',');
        }
        let m = &members[i];
        o.push('"');
        o.append(m.key);
        o.push('"');
        o.push(':');
        if m.text {
            o.push('"');
        }
        o.append(m.value.as_str());
        if m.text {
            o.push('"');
        }
        assert(o@ =~= start + (if i > 0 { seq![','] } else { Seq::empty() }) + m@.written());
        assert(o@ =~= seq!['{'] + members_text(next));
        i += 1;
    }
    assert(all.subrange(0, i as int) =~= all);
    o.push('}');
    assert(o@ =~= flat_object(all));
    o
}

// ---------------------------------------------------------------- reading back

/// Where member `k` starts.
spec fn start_of(m: Seq<MemberView>, k: int) -> int {
    1 + members_text(m.subrange(0, k)).len() + (if k > 0 { 1int } else { 0 })
}

proof fn lemma_member_stands(m: Seq<MemberView>, k: int)
    requires
        0 <= k < m.len(),
    ensures
        occurs_at(members_text(m), m[k].written(), start_of(m, k) - 1),
        start_of(m, k) - 1 + m[k].written().len() <= members_text(m).len(),
        k + 1 < m.len() ==> {
            &&& start_of(m, k) - 1 + m[k].written().len() < members_text(m).len()
            &&& members_text(m)[start_of(m, k) - 1 + m[k].written().len()] == ','
            &&& start_of(m, k + 1) == start_of(m, k) + m[k].written().len() + 1
        },
        k + 1 == m.len() ==> start_of(m, k) - 1 + m[k].written().len() == members_text(m).len(),
    decreases m.len(),
{
    let t = members_text(m);
    let w = m[k].written();
    let p = start_of(m, k) - 1;
    if k + 1 == m.len() {
        assert(m.subrange(0, k) =~= m.drop_last());
        if k == 0 {
            assert(members_text(m.subrange(0, 0)) =~= Seq::<char>::empty());
        }
        assert(t.subrange(p, p + w.len()) =~= w);
    } else {
        let r = m.drop_last();
        lemma_member_stands(r, k);
        assert(r.subrange(0, k) =~= m.subrange(0, k));
        assert(r[k] == m[k]);
        let u = members_text(r);
        assert(t == u + seq![','] + m.last().written());
        assert(t.subrange(p, p + w.len()) =~= u.subrange(p, p + w.len()));
        assert(m.subrange(0, k + 1).drop_last() =~= m.subrange(0, k));
        if k == 0 {
            assert(members_text(m.subrange(0, 0)) =~= Seq::<char>::empty());
            assert(members_text(m.subrange(0, 1)) == m[0].written());
        } else {
            assert(members_text(m.subrange(0, k + 1)) == members_text(m.subrange(0, k)) + seq![','] + m[k].written());
        }
        if k + 1 == r.len() {
            assert(t[p + w.len()] == ',');
        }
    }
}

proof fn lemma_run_is_skipped(s: Seq<char>, name: Seq<char>, a: int, b: int)
    requires
        0 <= a <= b <= s.len(),
        forall|p: int| a <= p < b ==> (#[trigger] s[p]) != '"',
    ensures
        value_from(s, name, a) == value_from(s, name, b),
    decreases b - a,
{
    if a < b {
        lemma_run_is_skipped(s, name, a + 1, b);
    }
}

proof fn lemma_literal_ends(s: Seq<char>, a: int, b: int)
    requires
        0 <= a <= b < s.len(),
        forall|p: int| a <= p < b ==> (#[trigger] s[p]) != '"' && s[p] != '\\',
        s[b] == '"',
    ensures
        after_string(s, a) == b + 1,
    decreases b - a,
{
    if a < b {
        lemma_literal_ends(s, a + 1, b);
    }
}

proof fn lemma_literal_reads(s: Seq<char>, a: int, b: int)
    requires
        0 <= a <= b < s.len(),
        forall|p: int| a <= p < b ==> (#[trigger] s[p]) != '"' && s[p] != '\\',
        s[b] == '"',
    ensures
        decoded(s, a) == Some(s.subrange(a, b)),
    decreases b - a,
{
    if a < b {
        lemma_literal_reads(s, a + 1, b);
        assert(seq![s[a]] + s.subrange(a + 1, b) =~= s.subrange(a, b));
    } else {
        assert(s.subrange(a, b) =~= Seq::<char>::empty());
    }
}

/// Two plain names that stand in quotes at one place are one.
proof fn lemma_names_agree(s: Seq<char>, i: int, a: Seq<char>, b: Seq<char>)
    requires
        plain(a),
        plain(b),
        occurs_at(s, quoted(a), i),
        occurs_at(s, quoted(b), i),
    ensures
        a == b,
{
    let qa = quoted(a);
    let qb = quoted(b);
    let sa = s.subrange(i, i + qa.len());
    let sb = s.subrange(i, i + qb.len());
    assert forall|k: int| 0 <= k < a.len() implies #[trigger] a[k] == s[i + 1 + k] by {
        assert(qa[k + 1] == a[k]);
        assert(sa[k + 1] == s[i + 1 + k]);
    }
    assert forall|k: int| 0 <= k < b.len() implies #[trigger] b[k] == s[i + 1 + k] by {
        assert(qb[k + 1] == b[k]);
        assert(sb[k + 1] == s[i + 1 + k]);
    }
    assert(qa[a.len() as int + 1] == '"' && sa[a.len() as int + 1] == s[i + 1 + a.len()]);
    assert(qb[b.len() as int + 1] == '"' && sb[b.len() as int + 1] == s[i + 1 + b.len()]);
    if a.len() < b.len() {
        assert(b[a.len() as int] == '"');
    } else if b.len() < a.len() {
        assert(a[b.len() as int] == '"');
    }
    assert(a =~= b);
}

/// A member stands at `i`, and the object goes on behind it.
spec fn stands(s: Seq<char>, m: MemberView, i: int) -> bool {
    &&& occurs_at(s, m.written(), i)
    &&& i + m.written().len() < s.len()
    &&& s[i + m.written().len()] == ',' || s[i + m.written().len()] == '}'
}

/// What stands where in a member.
proof fn lemma_layout(s: Seq<char>, m: MemberView, i: int)
    requires
        stands(s, m, i),
    ensures
        occurs_at(s, quoted(m.key), i),
        s[i] == '"',
        s[i + 1 + m.key.len()] == '"',
        s[i + 2 + m.key.len()] == ':',
        forall|k: int| 0 <= k < m.key.len() ==> s[i + 1 + k] == #[trigger] m.key[k],
        m.written().len() == m.key.len() + 3 + m.raw().len(),
        s.subrange(i + 3 + m.key.len(), i + 3 + m.key.len() + m.raw().len()) == m.raw(),
{
    let w = m.written();
    let t = s.subrange(i, i + w.len());
    let n = m.key.len() as int;
    let q = quoted(m.key);
    assert(w.len() == n + 3 + m.raw().len());
    assert forall|k: int| 0 <= k < w.len() implies s[i + k] == #[trigger] w[k] by {
        assert(t[k] == s[i + k]);
    }
    assert forall|k: int| 0 <= k < q.len() implies s[i + k] == #[trigger] q[k] by {
        assert(w[k] == q[k]);
    }
    assert(s.subrange(i, i + q.len()) =~= q);
    assert(q[0] == '"' && q[n + 1] == '"');
    assert(w[n + 2] == ':');
    assert forall|k: int| 0 <= k < n implies s[i + 1 + k] == #[trigger] m.key[k] by {
        assert(q[k + 1] == m.key[k]);
    }
    assert forall|k: int| 0 <= k < m.raw().len() implies s[i + 3 + n + k] == #[trigger] m.raw()[k] by {
        assert(w[n + 3 + k] == m.raw()[k]);
    }
    assert(s.subrange(i + 3 + n, i + 3 + n + m.raw().len()) =~= m.raw());
}

/// The search for another key passes over a member, whatever its value.
proof fn lemma_other_member(s: Seq<char>, key: Seq<char>, m: MemberView, i: int)
    requires
        plain(key),
        m.is_plain(),
        m.key != key,
        stands(s, m, i),
    ensures
        value_from(s, quoted(key), i) == value_from(s, quoted(key), i + m.written().len()),
{
    let name = quoted(key);
    lemma_layout(s, m, i);
    let n = m.key.len() as int;
    if occurs_at(s, name, i) {
        lemma_names_agree(s, i, key, m.key);
    }
    assert forall|p: int| i + 1 <= p < i + 1 + n implies (#[trigger] s[p]) != '"' && s[p] != '\\' by {
        assert(s[i + 1 + (p - i - 1)] == m.key[p - i - 1]);
    }
    lemma_literal_ends(s, i + 1, i + 1 + n);
    let a = i + 2 + n;
    assert(value_from(s, name, i) == value_from(s, name, a));
    assert(value_from(s, name, a) == value_from(s, name, a + 1));
    let v = a + 1;
    let raw = m.raw();
    let e = v + raw.len();
    assert forall|k: int| 0 <= k < raw.len() implies s[v + k] == #[trigger] raw[k] by {
        assert(s.subrange(v, e)[k] == s[v + k]);
    }
    if m.text {
        let len = m.value.len() as int;
        assert(raw[0] == '"' && raw[len + 1] == '"');
        assert(s[v] == '"' && s[v + len + 1] == '"');
        assert forall|p: int| v + 1 <= p < v + 1 + len implies (#[trigger] s[p]) != '"' && s[p] != '\\' by {
            assert(raw[p - v] == m.value[p - v - 1]);
            assert(s[v + (p - v)] == raw[p - v]);
        }
        lemma_literal_ends(s, v + 1, v + 1 + len);
        if occurs_at(s, name, v) {
            assert(s.subrange(v, v + raw.len()) == quoted(m.value));
            lemma_names_agree(s, v, key, m.value);
            // A comma or a brace follows, so this is a value and no key.
            assert(skip_spaces(s, e) == e);
            assert(value_after(s, v + name.len()) is None);
        }
    } else {
        assert forall|p: int| v <= p < e implies (#[trigger] s[p]) != '"' by {
            assert(s[v + (p - v)] == raw[p - v]);
        }
        lemma_run_is_skipped(s, name, v, e);
    }
}

/// The search for a member's own key finds its value.
proof fn lemma_own_member(s: Seq<char>, m: MemberView, i: int)
    requires
        m.raw().len() > 0,
        !crate::json::is_json_space(m.raw()[0]),
        stands(s, m, i),
    ensures
        value_from(s, quoted(m.key), i) == Some(i + 3 + m.key.len()),
{
    lemma_layout(s, m, i);
    let n = m.key.len() as int;
    let v = i + 3 + n;
    assert(s.subrange(v, v + m.raw().len())[0] == s[v]);
    assert(skip_spaces(s, i + 2 + n) == i + 2 + n);
    assert(skip_spaces(s, v) == v);
}

proof fn lemma_reach(m: Seq<MemberView>, key: Seq<char>, k: int)
    requires
        0 <= k < m.len(),
        plain(key),
        forall|j: int| 0 <= j < m.len() ==> (#[trigger] m[j]).is_plain(),
        forall|j: int| 0 <= j < k ==> (#[trigger] m[j]).key != key,
    ensures
        stands(flat_object(m), m[k], start_of(m, k)),
        value_at(flat_object(m), key) == value_from(flat_object(m), quoted(key), start_of(m, k)),
    decreases k,
{
    let s = flat_object(m);
    let t = members_text(m);
    let w = m[k].written();
    let p = start_of(m, k);
    lemma_member_stands(m, k);
    assert(s.subrange(p, p + w.len()) =~= t.subrange(p - 1, p - 1 + w.len()));
    if k + 1 < m.len() {
        assert(s[p + w.len()] == t[p - 1 + w.len()]);
    } else {
        assert(s[p + w.len()] == '}');
    }
    if k == 0 {
        assert(members_text(m.subrange(0, 0)) =~= Seq::<char>::empty());
        assert(s[0] == '{');
        assert(value_from(s, quoted(key), 0) == value_from(s, quoted(key), 1));
    } else {
        lemma_reach(m, key, k - 1);
        lemma_member_stands(m, k - 1);
        let q = start_of(m, k - 1);
        lemma_other_member(s, key, m[k - 1], q);
        let c = q + m[k - 1].written().len();
        assert(s[c] == t[c - 1]);
        assert(value_from(s, quoted(key), c) == value_from(s, quoted(key), c + 1));
    }
}

/// The first member of a name.
pub open spec fn is_first(m: Seq<MemberView>, k: int) -> bool {
    0 <= k < m.len() && forall|j: int| 0 <= j < k ==> (#[trigger] m[j]).key != m[k].key
}

/// No member needs an escape.
pub open spec fn all_plain(m: Seq<MemberView>) -> bool {
    forall|j: int| 0 <= j < m.len() ==> (#[trigger] m[j]).is_plain()
}

/// A text that is written is the text that is read, of an object whose texts
/// need no escapes. Another member that holds the key as its value does not
/// mislead the reader.
pub proof fn a_written_text_is_read_back(m: Seq<MemberView>, k: int)
    requires
        is_first(m, k),
        all_plain(m),
        m[k].text,
    ensures
        string_at(flat_object(m), m[k].key) == Some(m[k].value),
{
    let s = flat_object(m);
    let i = start_of(m, k);
    assert(m[k].is_plain());
    lemma_reach(m, m[k].key, k);
    lemma_own_member(s, m[k], i);
    lemma_layout(s, m[k], i);
    let v = i + 3 + m[k].key.len();
    let len = m[k].value.len() as int;
    let raw = m[k].raw();
    let t = s.subrange(v, v + raw.len());
    assert(t[0] == '"' && t[len + 1] == '"');
    assert forall|p: int| v + 1 <= p < v + 1 + len implies (#[trigger] s[p]) != '"' && s[p] != '\\' by {
        assert(raw[p - v] == m[k].value[p - v - 1]);
        assert(t[p - v] == s[p]);
    }
    lemma_literal_reads(s, v + 1, v + 1 + len);
    assert forall|j: int| 0 <= j < len implies s.subrange(v + 1, v + 1 + len)[j] == #[trigger] m[k].value[j] by {
        assert(raw[j + 1] == m[k].value[j]);
        assert(t[j + 1] == s[v + 1 + j]);
    }
    assert(s.subrange(v + 1, v + 1 + len) =~= m[k].value);
}

/// A number as it is written: characters of numbers only, and readable.
pub open spec fn is_number(t: Seq<char>) -> bool {
    &&& t.len() > 0
    &&& forall|i: int| 0 <= i < t.len() ==> is_number_char(#[trigger] t[i])
    &&& decimal_of(t) is Some
}

proof fn lemma_number_run(s: Seq<char>, a: int, b: int)
    requires
        0 <= a <= b < s.len(),
        forall|p: int| a <= p < b ==> is_number_char(#[trigger] s[p]),
        !is_number_char(s[b]),
    ensures
        number_end(s, a) == b,
    decreases b - a,
{
    if a < b {
        lemma_number_run(s, a + 1, b);
    }
}

/// A value stands at `v`, and the object goes on behind it.
spec fn value_stands(s: Seq<char>, v: int, raw: Seq<char>) -> bool {
    &&& 0 <= v
    &&& v + raw.len() < s.len()
    &&& s.subrange(v, v + raw.len()) == raw
    &&& s[v + raw.len()] == ',' || s[v + raw.len()] == '}'
}

proof fn lemma_value_found(m: Seq<MemberView>, k: int) -> (v: int)
    requires
        is_first(m, k),
        all_plain(m),
        m[k].raw().len() > 0,
        !crate::json::is_json_space(m[k].raw()[0]),
    ensures
        value_at(flat_object(m), m[k].key) == Some(v),
        value_stands(flat_object(m), v, m[k].raw()),
{
    let s = flat_object(m);
    let i = start_of(m, k);
    assert(m[k].is_plain());
    lemma_reach(m, m[k].key, k);
    lemma_own_member(s, m[k], i);
    lemma_layout(s, m[k], i);
    i + 3 + m[k].key.len()
}

proof fn lemma_number_stands(s: Seq<char>, v: int, raw: Seq<char>)
    requires
        value_stands(s, v, raw),
        is_number(raw),
    ensures
        number_end(s, v) == v + raw.len(),
        is_number_char(s[v]),
{
    let e = v + raw.len();
    assert forall|p: int| v <= p < e implies is_number_char(#[trigger] s[p]) by {
        assert(s.subrange(v, e)[p - v] == raw[p - v]);
    }
    lemma_number_run(s, v, e);
}

proof fn lemma_no_truth(s: Seq<char>, v: int)
    requires
        0 <= v < s.len(),
        is_number_char(s[v]),
    ensures
        !occurs_at(s, seq!['t', 'r', 'u', 'e'], v),
        !occurs_at(s, seq!['f', 'a', 'l', 's', 'e'], v),
{
    if occurs_at(s, seq!['t', 'r', 'u', 'e'], v) {
        assert(s.subrange(v, v + 4)[0] == 't');
    }
    if occurs_at(s, seq!['f', 'a', 'l', 's', 'e'], v) {
        assert(s.subrange(v, v + 5)[0] == 'f');
    }
}

/// A number that is written is the number that is read, digit for digit.
pub proof fn a_written_number_is_read_back(m: Seq<MemberView>, k: int)
    requires
        is_first(m, k),
        all_plain(m),
        !m[k].text,
        is_number(m[k].value),
    ensures
        number_text(flat_object(m), m[k].key) == Some(m[k].value),
        string_at(flat_object(m), m[k].key) is None,
        boolean_at(flat_object(m), m[k].key) is None,
{
    let raw = m[k].raw();
    assert(is_number_char(raw[0]));
    let v = lemma_value_found(m, k);
    let s = flat_object(m);
    lemma_number_stands(s, v, raw);
    lemma_no_truth(s, v);
}

/// A truth value that is written is the one that is read.
pub proof fn a_written_truth_is_read_back(m: Seq<MemberView>, k: int, b: bool)
    requires
        is_first(m, k),
        all_plain(m),
        m[k] == bare_member(m[k].key, crate::report::bool_text(b)),
    ensures
        boolean_at(flat_object(m), m[k].key) == Some(b),
        string_at(flat_object(m), m[k].key) is None,
{
    let raw = m[k].raw();
    reveal_strlit("true");
    reveal_strlit("false");
    assert(raw[0] == 't' || raw[0] == 'f');
    let v = lemma_value_found(m, k);
    let s = flat_object(m);
    lemma_truth_stands(s, v, raw, b);
}

proof fn lemma_truth_stands(s: Seq<char>, v: int, raw: Seq<char>, b: bool)
    requires
        value_stands(s, v, raw),
        raw == crate::report::bool_text(b),
    ensures
        s[v] != '"',
        b ==> occurs_at(s, seq!['t', 'r', 'u', 'e'], v),
        !b ==> !occurs_at(s, seq!['t', 'r', 'u', 'e'], v) && occurs_at(s, seq!['f', 'a', 'l', 's', 'e'], v),
{
    reveal_strlit("true");
    reveal_strlit("false");
    assert(s.subrange(v, v + raw.len())[0] == s[v]);
    if b {
        assert(raw =~= seq!['t', 'r', 'u', 'e']);
    } else {
        assert(raw =~= seq!['f', 'a', 'l', 's', 'e']);
        if occurs_at(s, seq!['t', 'r', 'u', 'e'], v) {
            assert(s.subrange(v, v + 4)[0] == 't');
        }
    }
}

// ---------------------------------------------------------------- the numbers

proof fn lemma_digit_run(t: Seq<char>, a: int, b: int)
    requires
        0 <= a <= b <= t.len(),
        forall|p: int| a <= p < b ==> crate::chars::is_digit(#[trigger] t[p]),
        b < t.len() ==> !crate::chars::is_digit(t[b]),
    ensures
        digits_end(t, a) == b,
    decreases b - a,
{
    if a < b {
        lemma_digit_run(t, a + 1, b);
    }
}

/// A whole number is written as a number.
pub proof fn lemma_dec_is_number(n: nat)
    ensures
        is_number(dec(n)),
        plain(dec(n)),
{
    let t = dec(n);
    lemma_dec_digits(n);
    assert forall|i: int| 0 <= i < t.len() implies is_number_char(#[trigger] t[i]) && t[i] != '"' && t[i] != '\\' by {
        assert(crate::chars::is_digit(t[i]));
    }
    assert(crate::chars::is_digit(t[0]));
    lemma_digit_run(t, 0, t.len() as int);
    assert(t.subrange(0, t.len() as int) =~= t);
}

/// A finite number with its decimals is written as a number.
pub proof fn lemma_double_is_number(d: Double, places: nat)
    requires
        d.finite(),
    ensures
        is_number(d.text(places)),
        plain(d.text(places)),
{
    let n = d.scaled(places);
    let t = d.text(places);
    let sign: Seq<char> = if d.negative() { seq!['-'] } else { Seq::empty() };
    let whole = if places == 0 { dec(n) } else { dec(n / crate::json::pow10(places)) };
    let fraction = crate::chars::dec_places(n, places);
    lemma_dec_digits(n);
    lemma_dec_digits(n / crate::json::pow10(places));
    lemma_dec_places_digits(n, places);
    let a = sign.len() as int;
    let b = a + whole.len();
    assert(t == sign + fixed_text(n, places));
    if places == 0 {
        assert(t =~= sign + whole);
    } else {
        assert(t =~= sign + whole + seq!['.'] + fraction);
    }
    assert forall|p: int| a <= p < b implies crate::chars::is_digit(#[trigger] t[p]) by {
        assert(t[p] == whole[p - a]);
    }
    if places > 0 {
        assert(t[b] == '.');
        assert forall|p: int| b + 1 <= p < t.len() implies crate::chars::is_digit(#[trigger] t[p]) by {
            assert(t[p] == fraction[p - b - 1]);
        }
        lemma_digit_run(t, b + 1, t.len() as int);
    }
    assert forall|i: int| 0 <= i < t.len() implies is_number_char(#[trigger] t[i]) && t[i] != '"' && t[i] != '\\' by {
        if i < a {
            assert(t[i] == '-');
        } else if i < b {
            assert(crate::chars::is_digit(t[i]));
        } else if i > b {
            assert(crate::chars::is_digit(t[i]));
        }
    }
    assert(crate::chars::is_digit(t[a]));
    assert(a == (if t.len() > 0 && is_sign(t[0]) { 1int } else { 0 }));
    lemma_digit_run(t, a, b);
}

} // verus!
