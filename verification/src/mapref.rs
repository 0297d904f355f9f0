//! Decomposition of map-element references: `name[key]` with an optionally
//! quoted key.

use vstd::prelude::*;
use vstd::string::StrSliceExecFns;
use crate::text::{char_alnum, is_alphanumeric_char};
use crate::store::Variables;

verus! {

/// A character a variable name may contain.
pub open spec fn valid_name_char(c: char) -> bool {
    char_alnum(c) || c == '_' || c == '?' || c == '.' || c == '-' || c == '+'
}

/// Every character of the name is valid; the empty name is vacuously valid.
pub open spec fn valid_name(s: Seq<char>) -> bool {
    forall|i: int| 0 <= i < s.len() ==> valid_name_char(#[trigger] s[i])
}

/// The first index at which `c` occurs, or the length when it does not.
pub open spec fn first_idx_of(s: Seq<char>, c: char) -> int
    decreases s.len(),
{
    if s.len() == 0 {
        0
    } else if s[0] == c {
        0
    } else {
        1 + first_idx_of(s.skip(1), c)
    }
}

/// The text with every leading quote character removed.
pub open spec fn trim_quote_start(s: Seq<char>) -> Seq<char>
    decreases s.len(),
{
    if s.len() > 0 && (s[0] == '\'' || s[0] == '"') {
        trim_quote_start(s.skip(1))
    } else {
        s
    }
}

/// The text with every trailing quote character removed.
pub open spec fn trim_quote_end(s: Seq<char>) -> Seq<char>
    decreases s.len(),
{
    if s.len() > 0 && (s.last() == '\'' || s.last() == '"') {
        trim_quote_end(s.drop_last())
    } else {
        s
    }
}

/// The text with surrounding quote characters removed.
pub open spec fn trim_quotes(s: Seq<char>) -> Seq<char> {
    trim_quote_end(trim_quote_start(s))
}

/// What a map reference decomposes into: the valid name before the first
/// `[`, and the key between that `[` and its first following `]` (which
/// must close the field before any second `[`), quotes stripped.
pub open spec fn map_ref_spec(s: Seq<char>) -> Option<(Seq<char>, Seq<char>)> {
    let i = first_idx_of(s, '[');
    if i == s.len() {
        None
    } else if !valid_name(s.subrange(0, i)) {
        None
    } else {
        let after = s.skip(i + 1);
        let inner = after.subrange(0, first_idx_of(after, '['));
        if inner.len() > 0 && inner.last() == ']' {
            Some(
                (s.subrange(0, i), trim_quotes(inner.subrange(0, first_idx_of(inner, ']')))),
            )
        } else {
            None
        }
    }
}

proof fn lemma_first_idx_bounds(s: Seq<char>, c: char)
    ensures
        0 <= first_idx_of(s, c) <= s.len(),
        forall|j: int| 0 <= j < first_idx_of(s, c) ==> (#[trigger] s[j]) != c,
        first_idx_of(s, c) < s.len() ==> s[first_idx_of(s, c)] == c,
    decreases s.len(),
{
    if s.len() > 0 && s[0] != c {
        lemma_first_idx_bounds(s.skip(1), c);
        assert(forall|j: int| 0 <= j < s.skip(1).len() ==> #[trigger] s.skip(1)[j] == s[j + 1]);
        assert forall|j: int| 0 <= j < first_idx_of(s, c) implies (#[trigger] s[j]) != c by {
            if j > 0 {
                assert(s.skip(1)[j - 1] != c);
            }
        }
        if first_idx_of(s, c) < s.len() {
            assert(s[first_idx_of(s, c)] == s.skip(1)[first_idx_of(s.skip(1), c)]);
        }
    }
}

proof fn lemma_first_idx_found(s: Seq<char>, c: char, i: int)
    requires
        0 <= i < s.len(),
        s[i] == c,
        forall|j: int| 0 <= j < i ==> (#[trigger] s[j]) != c,
    ensures
        first_idx_of(s, c) == i,
    decreases i,
{
    if i > 0 {
        let t = s.skip(1);
        assert(forall|j: int| 0 <= j < t.len() ==> (#[trigger] t[j]) == s[j + 1]);
        lemma_first_idx_found(t, c, i - 1);
    }
}

proof fn lemma_first_idx_absent(s: Seq<char>, c: char)
    requires
        forall|j: int| 0 <= j < s.len() ==> (#[trigger] s[j]) != c,
    ensures
        first_idx_of(s, c) == s.len(),
    decreases s.len(),
{
    if s.len() > 0 {
        let t = s.skip(1);
        assert(forall|j: int| 0 <= j < t.len() ==> (#[trigger] t[j]) == s[j + 1]);
        lemma_first_idx_absent(t, c);
    }
}

/// Finds the first occurrence of `c` in `s`.
#[verifier::loop_isolation(false)]
fn find_char(s: &str, c: char) -> (r: usize)
    ensures
        r == first_idx_of(s@, c),
{
    let len = s.unicode_len();
    let mut i: usize = 0;
    while i < len
        invariant
            0 <= i <= len,
            len == s@.len(),
            forall|j: int| 0 <= j < i ==> (#[trigger] s@[j]) != c,
        decreases len - i,
    {
        if s.get_char(i) == c {
            proof {
                lemma_first_idx_found(s@, c, i as int);
            }
            return i;
        }
        i += 1;
    }
    proof {
        lemma_first_idx_absent(s@, c);
    }
    len
}

/// Decides whether every character of `s` may stand in a variable name.
#[verifier::loop_isolation(false)]
pub fn is_valid_variable_name(name: &str) -> (r: bool)
    ensures
        r == valid_name(name@),
{
    let len = name.unicode_len();
    let mut i: usize = 0;
    while i < len
        invariant
            0 <= i <= len,
            len == name@.len(),
            forall|j: int| 0 <= j < i ==> valid_name_char(#[trigger] name@[j]),
        decreases len - i,
    {
        if !is_valid_variable_character(name.get_char(i)) {
            return false;
        }
        i += 1;
    }
    true
}

/// Decides whether one character may stand in a variable name.
pub fn is_valid_variable_character(c: char) -> (r: bool)
    ensures
        r == valid_name_char(c),
{
    is_alphanumeric_char(c) || c == '_' || c == '?' || c == '.' || c == '-' || c == '+'
}

fn is_quote(c: char) -> (r: bool)
    ensures
        r == (c == '\'' || c == '"'),
{
    c == '\'' || c == '"'
}

/// Strips surrounding quote characters.
#[verifier::loop_isolation(false)]
fn strip_quotes(s: &str) -> (r: &str)
    ensures
        r@ == trim_quotes(s@),
{
    let len = s.unicode_len();
    let mut a: usize = 0;
    proof {
        assert(s@.skip(0) =~= s@);
    }
    while a < len && is_quote(s.get_char(a))
        invariant
            0 <= a <= len,
            len == s@.len(),
            trim_quote_start(s@) == trim_quote_start(s@.skip(a as int)),
        decreases len - a,
    {
        proof {
            let t = s@.skip(a as int);
            assert(t[0] == s@[a as int]);
            assert(t.skip(1) =~= s@.skip(a + 1));
        }
        a += 1;
    }
    proof {
        let t = s@.skip(a as int);
        if a < len {
            assert(t[0] == s@[a as int]);
        }
        assert(trim_quote_start(s@) == t);
    }
    let mut b: usize = len;
    while b > a && is_quote(s.get_char(b - 1))
        invariant
            a <= b <= len,
            len == s@.len(),
            trim_quote_start(s@) == s@.skip(a as int),
            trim_quote_end(s@.skip(a as int)) == trim_quote_end(s@.subrange(a as int, b as int)),
        decreases b,
    {
        proof {
            let t = s@.subrange(a as int, b as int);
            assert(t.last() == s@[b - 1]);
            assert(t.drop_last() =~= s@.subrange(a as int, b - 1));
        }
        b -= 1;
    }
    proof {
        let t = s@.subrange(a as int, b as int);
        if b > a {
            assert(t.last() == s@[b - 1]);
        }
        assert(trim_quote_end(t) == t);
        assert(s@.skip(len as int) =~= s@.subrange(len as int, len as int));
    }
    s.substring_char(a, b)
}

impl Variables {
    /// Decomposes `key` as a map-element reference `name[key]`, the name
    /// valid and the key text stripped of surrounding quotes.
    pub fn is_hashmap_reference(key: &str) -> (r: Option<(String, String)>)
        ensures
            r is Some <==> map_ref_spec(key@) is Some,
            r matches Some(p) ==> map_ref_spec(key@) == Some((p.0@, p.1@)),
    {
        proof {
            lemma_first_idx_bounds(key@, '[');
        }
        let len = key.unicode_len();
        let i = find_char(key, '[');
        if i == len {
            return None;
        }
        let name = key.substring_char(0, i);
        if !is_valid_variable_name(name) {
            proof {
                assert(name@ == key@.subrange(0, i as int));
            }
            return None;
        }
        let after = key.substring_char(i + 1, len);
        proof {
            assert(after@ == key@.skip(i + 1));
            lemma_first_idx_bounds(after@, '[');
        }
        let j = find_char(after, '[');
        let inner = after.substring_char(0, j);
        proof {
            assert(inner@ == after@.subrange(0, j as int));
            lemma_first_idx_bounds(inner@, ']');
        }
        let ilen = inner.unicode_len();
        if ilen == 0 || inner.get_char(ilen - 1) != ']' {
            return None;
        }
        let k = find_char(inner, ']');
        let key0 = inner.substring_char(0, k);
        proof {
            assert(key0@ == inner@.subrange(0, first_idx_of(inner@, ']')));
        }
        let stripped = strip_quotes(key0);
        Some((name.to_owned(), stripped.to_owned()))
    }
}

/// Round trip of a map reference: wrapping a valid map name and a plain key
/// in `name[key]` or `name['key']` and decomposing it yields the name and
/// the key back.
pub proof fn lemma_map_reference_round_trip(m: Seq<char>, k: Seq<char>)
    requires
        valid_name(m),
        forall|i: int| 0 <= i < m.len() ==> (#[trigger] m[i]) != '[',
        forall|i: int| 0 <= i < k.len() ==> (#[trigger] k[i]) != '[' && k[i] != ']',
        trim_quotes(k) == k,
        k.len() > 0 ==> !(k[0] == '\'' || k[0] == '"'),
        k.len() > 0 ==> !(k.last() == '\'' || k.last() == '"'),
    ensures
        map_ref_spec(m + seq!['['] + k + seq![']']) == Some((m, k)),
        map_ref_spec(m + seq!['[', '\''] + k + seq!['\'', ']']) == Some((m, k)),
{
    lemma_round_trip_form(m, k, Seq::empty());
    lemma_round_trip_form(m, k, seq!['\'']);
    assert(m + seq!['['] + (Seq::<char>::empty() + k + Seq::<char>::empty()) + seq![']'] =~= m
        + seq!['['] + k + seq![']']);
    assert(m + seq!['['] + (seq!['\''] + k + seq!['\'']) + seq![']'] =~= m + seq!['[', '\''] + k
        + seq!['\'', ']']);
}

proof fn lemma_trim_start_quotes(q: Seq<char>, rest: Seq<char>)
    requires
        forall|i: int| 0 <= i < q.len() ==> (#[trigger] q[i]) == '\'' || q[i] == '"',
        rest.len() > 0 ==> !(rest[0] == '\'' || rest[0] == '"'),
    ensures
        trim_quote_start(q + rest) == rest,
    decreases q.len(),
{
    if q.len() == 0 {
        assert(q + rest =~= rest);
        if rest.len() > 0 {
            assert(trim_quote_start(rest) == rest);
        }
    } else {
        assert((q + rest)[0] == q[0]);
        assert((q + rest).skip(1) =~= q.skip(1) + rest);
        assert(forall|i: int| 0 <= i < q.skip(1).len() ==> (#[trigger] q.skip(1)[i]) == q[i + 1]);
        lemma_trim_start_quotes(q.skip(1), rest);
    }
}

proof fn lemma_trim_end_quotes(body: Seq<char>, q: Seq<char>)
    requires
        forall|i: int| 0 <= i < q.len() ==> (#[trigger] q[i]) == '\'' || q[i] == '"',
        body.len() > 0 ==> !(body.last() == '\'' || body.last() == '"'),
    ensures
        trim_quote_end(body + q) == body,
    decreases q.len(),
{
    if q.len() == 0 {
        assert(body + q =~= body);
        if body.len() > 0 {
            assert(trim_quote_end(body) == body);
        }
    } else {
        assert((body + q).last() == q.last());
        assert((body + q).drop_last() =~= body + q.drop_last());
        assert(forall|i: int|
            0 <= i < q.drop_last().len() ==> (#[trigger] q.drop_last()[i]) == q[i]);
        lemma_trim_end_quotes(body, q.drop_last());
    }
}

#[verifier::rlimit(60)]
proof fn lemma_round_trip_form(m: Seq<char>, k: Seq<char>, q: Seq<char>)
    requires
        valid_name(m),
        forall|i: int| 0 <= i < m.len() ==> (#[trigger] m[i]) != '[',
        forall|i: int| 0 <= i < k.len() ==> (#[trigger] k[i]) != '[' && k[i] != ']',
        forall|i: int| 0 <= i < q.len() ==> (#[trigger] q[i]) == '\'',
        k.len() > 0 ==> !(k[0] == '\'' || k[0] == '"'),
        k.len() > 0 ==> !(k.last() == '\'' || k.last() == '"'),
    ensures
        map_ref_spec(m + seq!['['] + (q + k + q) + seq![']']) == Some((m, k)),
{
    let s = m + seq!['['] + (q + k + q) + seq![']'];
    let mid = q + k + q;
    assert(forall|i: int| 0 <= i < s.len() ==> s[i] == (#[trigger] (m + seq!['['] + mid
        + seq![']'])[i]));
    assert(s.len() == m.len() + 1 + mid.len() + 1);
    assert(forall|i: int| 0 <= i < m.len() ==> (#[trigger] s[i]) == m[i]);
    assert(s[m.len() as int] == '[');
    assert(forall|i: int| 0 <= i < mid.len() ==> (#[trigger] mid[i]) != '[' && mid[i] != ']');
    assert(forall|i: int|
        m.len() + 1 <= i < m.len() + 1 + mid.len() ==> (#[trigger] s[i]) == mid[i - m.len() - 1]);
    assert(s[s.len() - 1] == ']');
    lemma_first_idx_found(s, '[', m.len() as int);
    assert(first_idx_of(s, '[') == m.len());
    assert(s.subrange(0, m.len() as int) =~= m);
    let after = s.skip(m.len() + 1int);
    assert(after =~= mid + seq![']']);
    assert(forall|i: int| 0 <= i < after.len() ==> (#[trigger] after[i]) != '[');
    lemma_first_idx_absent(after, '[');
    let inner = after.subrange(0, first_idx_of(after, '['));
    assert(inner =~= after);
    assert(inner.len() > 0 && inner.last() == ']');
    lemma_first_idx_found(inner, ']', mid.len() as int);
    assert(inner.subrange(0, first_idx_of(inner, ']')) =~= mid);
    if k.len() == 0 {
        // the quotes alone strip away entirely
        assert(forall|i: int|
            0 <= i < (q + q).len() ==> ((#[trigger] (q + q)[i]) == '\'' || (q + q)[i] == '"'));
        lemma_trim_start_quotes(q + q, Seq::empty());
        assert((q + q) + Seq::<char>::empty() =~= mid);
        assert(trim_quote_start(mid) == Seq::<char>::empty());
        assert(trim_quote_end(Seq::<char>::empty()) == Seq::<char>::empty());
        assert(trim_quotes(mid) =~= k);
    } else {
        assert((k + q).len() > 0 && (k + q)[0] == k[0]);
        lemma_trim_start_quotes(q, k + q);
        assert(q + (k + q) =~= mid);
        assert(trim_quote_start(mid) == k + q);
        lemma_trim_end_quotes(k, q);
        assert(trim_quotes(mid) == k);
    }
    assert(map_ref_spec(s) == Some((m, k)));
}

} // verus!
