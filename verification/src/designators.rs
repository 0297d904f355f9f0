//! History designators: `!`-prefixed references to prior commands, spliced
//! into the command text before execution. Expansion is pure: unresolved
//! references stay literal.

use vstd::prelude::*;
use vstd::string::{StrSliceExecFns, StringExecFns};
use crate::text::{dec_digit_val, dec_value, has_prefix, is_dec_digit, push_char, starts_with_str};

verus! {

/// The most recent history entry with the given prefix.
pub open spec fn latest_with_prefix(h: Seq<Seq<char>>, p: Seq<char>) -> Option<Seq<char>>
    decreases h,
{
    if h.len() == 0 {
        None
    } else if has_prefix(h.last(), p) {
        Some(h.last())
    } else {
        latest_with_prefix(h.drop_last(), p)
    }
}

/// `p` occurs in `h` as a contiguous run.
pub open spec fn contains_sub(h: Seq<char>, p: Seq<char>) -> bool {
    exists|k: int| 0 <= k && k + p.len() <= h.len() && #[trigger] h.subrange(k, k + p.len()) == p
}

/// The most recent history entry containing `p`.
pub open spec fn latest_containing(h: Seq<Seq<char>>, p: Seq<char>) -> Option<Seq<char>>
    decreases h,
{
    if h.len() == 0 {
        None
    } else if contains_sub(h.last(), p) {
        Some(h.last())
    } else {
        latest_containing(h.drop_last(), p)
    }
}

/// The first `?` at or after `from`, or the end of the text.
pub open spec fn question_end(text: Seq<char>, from: int) -> int
    decreases text.len() - from,
{
    if from < 0 || from >= text.len() || text[from] == '?' {
        from
    } else {
        question_end(text, from + 1)
    }
}

/// Where the run of decimal digits starting at `from` ends.
pub open spec fn digit_run_end(text: Seq<char>, from: int) -> int
    decreases text.len() - from,
{
    if from < 0 || from >= text.len() || !is_dec_digit(text[from]) {
        from
    } else {
        digit_run_end(text, from + 1)
    }
}

/// Where the run of word characters (no whitespace, no `!`, no `:`)
/// starting at `from` ends.
pub open spec fn word_run_end(text: Seq<char>, from: int) -> int
    decreases text.len() - from,
{
    if from < 0 || from >= text.len() || text[from] == ' ' || text[from] == '\t' || text[from]
        == '\n' || text[from] == '!' || text[from] == ':' {
        from
    } else {
        word_run_end(text, from + 1)
    }
}

/// What the designator at the head of `text` (which starts with `!`) stands
/// for, with how many characters it spans: `!!` is the last entry,
/// `!?text?` the most recent entry containing `text`, `!-N` the `N`-th
/// entry from the end, `!N` the entry at index `N`, and `!word` the most
/// recent entry starting with `word`. An unresolvable or malformed
/// reference yields nothing and stays literal.
pub open spec fn designator_at(text: Seq<char>, h: Seq<Seq<char>>) -> Option<(Seq<char>, int)> {
    if text.len() >= 2 && text[1] == '!' {
        if h.len() > 0 {
            Some((h.last(), 2))
        } else {
            None
        }
    } else if text.len() >= 2 && text[1] == '?' {
        let q = question_end(text, 2);
        if q < text.len() {
            match latest_containing(h, text.subrange(2, q)) {
                Some(e) => Some((e, q + 1)),
                None => None,
            }
        } else {
            None
        }
    } else if text.len() >= 3 && text[1] == '-' && is_dec_digit(text[2]) {
        let j = digit_run_end(text, 2);
        let n = dec_value(text.subrange(2, j));
        if 1 <= n <= h.len() {
            Some((h[h.len() - n], j))
        } else {
            None
        }
    } else if text.len() >= 2 && is_dec_digit(text[1]) {
        let j = digit_run_end(text, 1);
        let n = dec_value(text.subrange(1, j));
        if n < h.len() {
            Some((h[n], j))
        } else {
            None
        }
    } else {
        let j = word_run_end(text, 1);
        if j > 1 {
            match latest_with_prefix(h, text.subrange(1, j)) {
                Some(e) => Some((e, j)),
                None => None,
            }
        } else {
            None
        }
    }
}

/// The command text with every resolvable designator replaced by the
/// history text it names.
pub open spec fn expand_spec(text: Seq<char>, h: Seq<Seq<char>>) -> Seq<char>
    decreases text.len(),
{
    if text.len() == 0 {
        Seq::empty()
    } else if text[0] != '!' {
        seq![text[0]] + expand_spec(text.skip(1), h)
    } else {
        match designator_at(text, h) {
            Some(pair) => {
                let wanted = if pair.1 < 2 {
                    2int
                } else {
                    pair.1
                };
                let step = if wanted > text.len() {
                    text.len() as int
                } else {
                    wanted
                };
                pair.0 + expand_spec(text.skip(step), h)
            },
            None => seq!['!'] + expand_spec(text.skip(1), h),
        }
    }
}

proof fn lemma_digit_run_bounds(text: Seq<char>, from: int)
    requires
        0 <= from <= text.len(),
    ensures
        from <= digit_run_end(text, from) <= text.len(),
        forall|j: int| from <= j < digit_run_end(text, from) ==> is_dec_digit(#[trigger] text[j]),
        digit_run_end(text, from) < text.len() ==> !is_dec_digit(text[digit_run_end(text, from)]),
    decreases text.len() - from,
{
    if from < text.len() && is_dec_digit(text[from]) {
        lemma_digit_run_bounds(text, from + 1);
    }
}

proof fn lemma_word_run_bounds(text: Seq<char>, from: int)
    requires
        0 <= from <= text.len(),
    ensures
        from <= word_run_end(text, from) <= text.len(),
    decreases text.len() - from,
{
    if from < text.len() && !(text[from] == ' ' || text[from] == '\t' || text[from] == '\n'
        || text[from] == '!' || text[from] == ':') {
        lemma_word_run_bounds(text, from + 1);
    }
}

/// Finds the end of the digit run starting at `from`.
#[verifier::loop_isolation(false)]
fn digit_run(text: &str, from: usize) -> (r: usize)
    requires
        from <= text@.len(),
    ensures
        r == digit_run_end(text@, from as int),
        from <= r <= text@.len(),
{
    proof {
        lemma_digit_run_bounds(text@, from as int);
    }
    let len = text.unicode_len();
    let mut i: usize = from;
    while i < len && is_digit_char(text.get_char(i))
        invariant
            from <= i <= len,
            len == text@.len(),
            digit_run_end(text@, from as int) == digit_run_end(text@, i as int),
        decreases len - i,
    {
        i += 1;
    }
    i
}

fn is_digit_char(c: char) -> (r: bool)
    ensures
        r == is_dec_digit(c),
{
    '0' <= c && c <= '9'
}

fn is_word_char(c: char) -> (r: bool)
    ensures
        r == !(c == ' ' || c == '\t' || c == '\n' || c == '!' || c == ':'),
{
    !(c == ' ' || c == '\t' || c == '\n' || c == '!' || c == ':')
}

/// Finds the end of the word run starting at `from`.
#[verifier::loop_isolation(false)]
fn word_run(text: &str, from: usize) -> (r: usize)
    requires
        from <= text@.len(),
    ensures
        r == word_run_end(text@, from as int),
        from <= r <= text@.len(),
{
    proof {
        lemma_word_run_bounds(text@, from as int);
    }
    let len = text.unicode_len();
    let mut i: usize = from;
    while i < len && is_word_char(text.get_char(i))
        invariant
            from <= i <= len,
            len == text@.len(),
            word_run_end(text@, from as int) == word_run_end(text@, i as int),
        decreases len - i,
    {
        i += 1;
    }
    i
}

proof fn lemma_question_end_bounds(text: Seq<char>, from: int)
    requires
        0 <= from <= text.len(),
    ensures
        from <= question_end(text, from) <= text.len(),
    decreases text.len() - from,
{
    if from < text.len() && text[from] != '?' {
        lemma_question_end_bounds(text, from + 1);
    }
}

proof fn lemma_question_end_shift(text: Seq<char>, i: int, off: int, j: int)
    requires
        0 <= i,
        off >= 1,
        i + off <= text.len(),
        j == question_end(text, i + off),
    ensures
        question_end(text.skip(i), off) == j - i,
    decreases text.len() - i - off,
{
    let rest = text.skip(i);
    assert(forall|k: int| 0 <= k < rest.len() ==> (#[trigger] rest[k]) == text[i + k]);
    if i + off < text.len() && text[i + off] != '?' {
        lemma_question_end_shift(text, i, off + 1, j);
    }
}

fn is_question(c: char) -> (r: bool)
    ensures
        r == (c == '?'),
{
    c == '?'
}

/// Finds the first `?` at or after `from`.
#[verifier::loop_isolation(false)]
fn question_run(text: &str, from: usize) -> (r: usize)
    requires
        from <= text@.len(),
    ensures
        r == question_end(text@, from as int),
        from <= r <= text@.len(),
{
    proof {
        lemma_question_end_bounds(text@, from as int);
    }
    let len = text.unicode_len();
    let mut i: usize = from;
    while i < len && !is_question(text.get_char(i))
        invariant
            from <= i <= len,
            len == text@.len(),
            question_end(text@, from as int) == question_end(text@, i as int),
        decreases len - i,
    {
        i += 1;
    }
    i
}

/// Whether `p` occurs in `h` starting at `k`.
#[verifier::loop_isolation(false)]
fn matches_at(h: &str, k: usize, p: &str) -> (r: bool)
    requires
        k + p@.len() <= h@.len(),
    ensures
        r == (h@.subrange(k as int, k + p@.len()) == p@),
{
    let hlen = h.unicode_len();
    let plen = p.unicode_len();
    let mut i: usize = 0;
    while i < plen
        invariant
            0 <= i <= plen,
            plen == p@.len(),
            hlen == h@.len(),
            k + plen <= h@.len(),
            forall|j: int| 0 <= j < i ==> h@[k + j] == p@[j],
        decreases plen - i,
    {
        if h.get_char(k + i) != p.get_char(i) {
            proof {
                assert(h@.subrange(k as int, k + p@.len())[i as int] == h@[k + i]);
            }
            return false;
        }
        i += 1;
    }
    proof {
        assert(h@.subrange(k as int, k + p@.len()) =~= p@);
    }
    true
}

/// Decides whether `p` occurs anywhere in `h`.
#[verifier::loop_isolation(false)]
fn str_contains(h: &str, p: &str) -> (r: bool)
    ensures
        r == contains_sub(h@, p@),
{
    let hlen = h.unicode_len();
    let plen = p.unicode_len();
    if plen > hlen {
        return false;
    }
    let mut k: usize = 0;
    while k <= hlen - plen
        invariant
            0 <= k <= hlen - plen,
            hlen == h@.len(),
            plen == p@.len(),
            plen <= hlen,
            forall|j: int| 0 <= j < k ==> #[trigger] h@.subrange(j, j + p@.len()) != p@,
        decreases hlen - plen - k,
    {
        if matches_at(h, k, p) {
            return true;
        }
        if k == hlen - plen {
            proof {
                assert(forall|j: int|
                    0 <= j <= k ==> #[trigger] h@.subrange(j, j + p@.len()) != p@);
            }
            return false;
        }
        k += 1;
    }
    false
}

/// Finds the most recent history entry containing `p`.
#[verifier::loop_isolation(false)]
fn find_latest_containing(h: &Vec<String>, p: &str) -> (r: Option<String>)
    ensures
        r is Some <==> latest_containing(h.deep_view(), p@) is Some,
        r matches Some(e) ==> latest_containing(h.deep_view(), p@) == Some(e@),
{
    let ghost hv = h.deep_view();
    let mut i: usize = h.len();
    proof {
        assert(hv.subrange(0, hv.len() as int) =~= hv);
    }
    while i > 0
        invariant
            0 <= i <= hv.len(),
            hv.len() == h@.len(),
            latest_containing(hv.subrange(0, i as int), p@) == latest_containing(hv, p@),
        decreases i,
    {
        proof {
            let pre = hv.subrange(0, i as int);
            assert(pre.last() == hv[i - 1]);
            assert(pre.drop_last() =~= hv.subrange(0, i - 1));
            assert(hv[i - 1] == h@[i - 1]@);
        }
        if str_contains(h[i - 1].as_str(), p) {
            return Some(h[i - 1].clone());
        }
        i -= 1;
    }
    proof {
        assert(hv.subrange(0, 0) =~= Seq::<Seq<char>>::empty());
    }
    None
}

/// Finds the most recent history entry starting with `p`.
#[verifier::loop_isolation(false)]
fn find_latest_with_prefix(h: &Vec<String>, p: &str) -> (r: Option<String>)
    ensures
        r is Some <==> latest_with_prefix(h.deep_view(), p@) is Some,
        r matches Some(e) ==> latest_with_prefix(h.deep_view(), p@) == Some(e@),
{
    let ghost hv = h.deep_view();
    let mut i: usize = h.len();
    proof {
        assert(hv.subrange(0, hv.len() as int) =~= hv);
    }
    while i > 0
        invariant
            0 <= i <= hv.len(),
            hv.len() == h@.len(),
            latest_with_prefix(hv.subrange(0, i as int), p@) == latest_with_prefix(hv, p@),
        decreases i,
    {
        proof {
            let pre = hv.subrange(0, i as int);
            assert(pre.last() == hv[i - 1]);
            assert(pre.drop_last() =~= hv.subrange(0, i - 1));
            assert(hv[i - 1] == h@[i - 1]@);
        }
        if starts_with_str(h[i - 1].as_str(), p) {
            return Some(h[i - 1].clone());
        }
        i -= 1;
    }
    proof {
        assert(hv.subrange(0, 0) =~= Seq::<Seq<char>>::empty());
    }
    None
}

/// Parses the digit run `[from, to)` of `text`; the flag reports a value
/// beyond `cap`, which callers treat as out of range.
#[verifier::loop_isolation(false)]
fn run_value_capped(text: &str, from: usize, to: usize, cap: usize) -> (r: (usize, bool))
    requires
        from <= to <= text@.len(),
        forall|j: int| from <= j < to ==> is_dec_digit(#[trigger] text@[j]),
    ensures
        !r.1 ==> r.0 as int == dec_value(text@.subrange(from as int, to as int)) && r.0 <= cap,
        r.1 ==> dec_value(text@.subrange(from as int, to as int)) > cap,
{
    let mut acc: usize = 0;
    let mut over = false;
    let mut i: usize = from;
    proof {
        assert(text@.subrange(from as int, from as int) =~= Seq::<char>::empty());
    }
    while i < to
        invariant
            from <= i <= to,
            !over ==> acc as int == dec_value(text@.subrange(from as int, i as int)) && acc <= cap,
            over ==> dec_value(text@.subrange(from as int, i as int)) > cap,
        decreases to - i,
    {
        let c = text.get_char(i);
        let d = (c as u32 as usize) - ('0' as u32 as usize);
        proof {
            let p = text@.subrange(from as int, i as int);
            let q = text@.subrange(from as int, i + 1);
            assert(q.drop_last() =~= p);
            assert(q.last() == text@[i as int]);
            assert(is_dec_digit(text@[i as int]));
            assert(d as int == dec_digit_val(text@[i as int]));
            lemma_dec_value_nonneg_local(p);
            assert(dec_value(q) == dec_value(p) * 10 + (d as int));
        }
        if over {
            proof {
                let p = text@.subrange(from as int, i as int);
                let q = text@.subrange(from as int, i + 1);
                assert(dec_value(p) * 10 >= dec_value(p)) by (nonlinear_arith)
                    requires
                        dec_value(p) >= 0,
                ;
                assert(dec_value(q) > cap);
            }
        } else if d <= cap && acc <= (cap - d) / 10 {
            proof {
                let q = text@.subrange(from as int, i + 1);
                assert(acc * 10 + d <= cap) by (nonlinear_arith)
                    requires
                        acc <= (cap - d) / 10,
                        0 <= d <= cap,
                        acc >= 0,
                ;
            }
            acc = acc * 10 + d;
        } else {
            proof {
                let q = text@.subrange(from as int, i + 1);
                assert(acc * 10 + d > cap) by (nonlinear_arith)
                    requires
                        d > cap || acc > (cap - d) / 10,
                        0 <= d,
                        acc >= 0,
                        cap >= 0,
                ;
                assert(dec_value(q) > cap);
            }
            over = true;
        }
        i += 1;
    }
    (acc, over)
}

proof fn lemma_dec_value_nonneg_local(s: Seq<char>)
    requires
        forall|i: int| 0 <= i < s.len() ==> is_dec_digit(#[trigger] s[i]),
    ensures
        dec_value(s) >= 0,
    decreases s.len(),
{
    if s.len() > 0 {
        lemma_dec_value_nonneg_local(s.drop_last());
    }
}

/// Replaces every resolvable history designator in `text` by the entry it
/// names, drawing on `history` in stored order.
#[verifier::loop_isolation(false)]
pub fn expand_designators(text: &str, history: &Vec<String>) -> (r: String)
    ensures
        r@ == expand_spec(text@, history.deep_view()),
{
    let ghost hv = history.deep_view();
    let len = text.unicode_len();
    let mut out = String::new();
    let mut i: usize = 0;
    proof {
        assert(text@.skip(0) =~= text@);
        assert(out@ + expand_spec(text@, hv) =~= expand_spec(text@, hv));
    }
    while i < len
        invariant
            0 <= i <= len,
            len == text@.len(),
            hv == history.deep_view(),
            out@ + expand_spec(text@.skip(i as int), hv) == expand_spec(text@, hv),
        decreases len - i,
    {
        let ghost rest = text@.skip(i as int);
        proof {
            assert(rest[0] == text@[i as int]);
            assert(rest.skip(1) =~= text@.skip(i + 1));
        }
        let c = text.get_char(i);
        if c != '!' {
            push_char(&mut out, c);
            i += 1;
            proof {
                assert(out@ + expand_spec(text@.skip(i as int), hv) =~= expand_spec(text@, hv));
            }
        } else {
            let (rep, consumed): (Option<String>, usize) = designator_here(text, i, history);
            proof {
                assert(2 <= consumed || rep is None);
            }
            match rep {
                Some(e) => {
                    out.append(e.as_str());
                    proof {
                        assert(rest.skip(consumed as int) =~= text@.skip(i + consumed));
                    }
                    i += consumed;
                    proof {
                        assert(out@ + expand_spec(text@.skip(i as int), hv) =~= expand_spec(
                            text@,
                            hv,
                        ));
                    }
                },
                None => {
                    push_char(&mut out, '!');
                    i += 1;
                    proof {
                        assert(out@ + expand_spec(text@.skip(i as int), hv) =~= expand_spec(
                            text@,
                            hv,
                        ));
                    }
                },
            }
        }
    }
    proof {
        assert(text@.skip(len as int) =~= Seq::<char>::empty());
        assert(out@ =~= expand_spec(text@, hv));
    }
    out
}

/// Resolves the designator starting at position `i` of `text`.
#[verifier::loop_isolation(false)]
fn designator_here(text: &str, i: usize, history: &Vec<String>) -> (r: (Option<String>, usize))
    requires
        i < text@.len(),
        text@[i as int] == '!',
    ensures
        ({
            let rest = text@.skip(i as int);
            match designator_at(rest, history.deep_view()) {
                Some(pair) => r.0 matches Some(e) && e@ == pair.0 && r.1 == pair.1 && 2 <= r.1
                    && i + r.1 <= text@.len(),
                None => r.0 is None,
            }
        }),
{
    let ghost rest = text@.skip(i as int);
    let ghost hv = history.deep_view();
    let len = text.unicode_len();
    proof {
        assert(forall|j: int| 0 <= j < rest.len() ==> (#[trigger] rest[j]) == text@[i + j]);
    }
    if len - i > 1 && text.get_char(i + 1) == '!' {
        if history.len() > 0 {
            proof {
                assert(hv.last() == history@[history@.len() - 1]@);
            }
            (Some(history[history.len() - 1].clone()), 2)
        } else {
            (None, 0)
        }
    } else if len - i > 1 && text.get_char(i + 1) == '?' {
        let q = question_run(text, i + 2);
        proof {
            lemma_question_end_bounds(text@, i + 2);
            lemma_question_end_shift(text@, i as int, 2, q as int);
        }
        if q < len {
            let pat = text.substring_char(i + 2, q);
            proof {
                assert(pat@ =~= rest.subrange(2, q - i));
            }
            match find_latest_containing(history, pat) {
                Some(e) => (Some(e), q + 1 - i),
                None => (None, 0),
            }
        } else {
            (None, 0)
        }
    } else if len - i > 2 && text.get_char(i + 1) == '-' && is_digit_char(text.get_char(i + 2)) {
        let j = digit_run(text, i + 2);
        proof {
            lemma_digit_run_bounds(text@, i + 2);
            lemma_run_shift(text@, i as int, 2, j as int);
            assert(rest.subrange(2, j - i) =~= text@.subrange(i + 2, j as int));
        }
        let (n, over) = run_value_capped(text, i + 2, j, history.len());
        if !over && 1 <= n && n <= history.len() {
            proof {
                assert(hv[hv.len() - n] == history@[history@.len() - n]@);
            }
            (Some(history[history.len() - n].clone()), j - i)
        } else {
            (None, 0)
        }
    } else if len - i > 1 && is_digit_char(text.get_char(i + 1)) {
        let j = digit_run(text, i + 1);
        proof {
            lemma_digit_run_bounds(text@, i + 1);
            lemma_run_shift(text@, i as int, 1, j as int);
            assert(rest.subrange(1, j - i) =~= text@.subrange(i + 1, j as int));
        }
        let (n, over) = run_value_capped(text, i + 1, j, history.len());
        if !over && n < history.len() {
            proof {
                assert(hv[n as int] == history@[n as int]@);
            }
            (Some(history[n].clone()), j - i)
        } else {
            (None, 0)
        }
    } else {
        let j = word_run(text, i + 1);
        proof {
            lemma_word_run_shift(text@, i as int, 1, j as int);
        }
        if j > i + 1 {
            let p = text.substring_char(i + 1, j);
            proof {
                assert(p@ =~= rest.subrange(1, j - i));
            }
            match find_latest_with_prefix(history, p) {
                Some(e) => (Some(e), j - i),
                None => (None, 0),
            }
        } else {
            (None, 0)
        }
    }
}

proof fn lemma_run_shift(text: Seq<char>, i: int, off: int, j: int)
    requires
        0 <= i,
        off >= 1,
        i + off <= text.len(),
        j == digit_run_end(text, i + off),
    ensures
        digit_run_end(text.skip(i), off) == j - i,
    decreases text.len() - i - off,
{
    let rest = text.skip(i);
    assert(forall|k: int| 0 <= k < rest.len() ==> (#[trigger] rest[k]) == text[i + k]);
    if i + off < text.len() && is_dec_digit(text[i + off]) {
        lemma_run_shift(text, i, off + 1, j);
    }
}

proof fn lemma_word_run_shift(text: Seq<char>, i: int, off: int, j: int)
    requires
        0 <= i,
        off >= 1,
        i + off <= text.len(),
        j == word_run_end(text, i + off),
    ensures
        word_run_end(text.skip(i), off) == j - i,
    decreases text.len() - i - off,
{
    let rest = text.skip(i);
    assert(forall|k: int| 0 <= k < rest.len() ==> (#[trigger] rest[k]) == text[i + k]);
    if i + off < text.len() && !(text[i + off] == ' ' || text[i + off] == '\t' || text[i + off]
        == '\n' || text[i + off] == '!' || text[i + off] == ':') {
        lemma_word_run_shift(text, i, off + 1, j);
    }
}

} // verus!
