//! Character classes and small string utilities shared by the store and the
//! interactive driver: equality and prefix tests over `&str`, whitespace
//! trimming, decimal rendering and hexadecimal parsing.

use vstd::prelude::*;
use vstd::string::StrSliceExecFns;

verus! {

/// `p` is a prefix of `s`.
pub open spec fn has_prefix(s: Seq<char>, p: Seq<char>) -> bool {
    p.len() <= s.len() && s.subrange(0, p.len() as int) == p
}

/// Relies on String::push: appends one character at the end of the string.
#[verifier::external_body]
pub fn push_char(s: &mut String, c: char)
    ensures
        final(s)@ == old(s)@.push(c),
{
    s.push(c);
}

/// Character-for-character equality of two string slices.
pub fn str_eq(a: &str, b: &str) -> (r: bool)
    ensures
        r == (a@ == b@),
{
    let la = a.unicode_len();
    let lb = b.unicode_len();
    if la != lb {
        return false;
    }
    let mut i: usize = 0;
    while i < la
        invariant
            la == a@.len(),
            la == b@.len(),
            0 <= i <= la,
            forall|j: int| 0 <= j < i ==> a@[j] == b@[j],
        decreases la - i,
    {
        if a.get_char(i) != b.get_char(i) {
            return false;
        }
        i += 1;
    }
    proof {
        assert(a@ =~= b@);
    }
    true
}

/// Whether `s` starts with `p`.
pub fn starts_with_str(s: &str, p: &str) -> (r: bool)
    ensures
        r == has_prefix(s@, p@),
{
    let ls = s.unicode_len();
    let lp = p.unicode_len();
    if lp > ls {
        return false;
    }
    let mut i: usize = 0;
    while i < lp
        invariant
            ls == s@.len(),
            lp == p@.len(),
            lp <= ls,
            0 <= i <= lp,
            forall|j: int| 0 <= j < i ==> s@[j] == p@[j],
        decreases lp - i,
    {
        if s.get_char(i) != p.get_char(i) {
            return false;
        }
        i += 1;
    }
    proof {
        assert(s@.subrange(0, lp as int) =~= p@);
    }
    true
}

/// The Unicode White_Space characters.
pub open spec fn is_space_char(c: char) -> bool {
    c == ' ' || c == '\t' || c == '\n' || c == '\r' || c == '\u{b}' || c == '\u{c}' || c
        == '\u{85}' || c == '\u{a0}' || c == '\u{1680}' || ('\u{2000}' <= c && c <= '\u{200a}') || c
        == '\u{2028}' || c == '\u{2029}' || c == '\u{202f}' || c == '\u{205f}' || c == '\u{3000}'
}

/// Decides membership in the Unicode White_Space class.
pub fn is_space(c: char) -> (r: bool)
    ensures
        r == is_space_char(c),
{
    c == ' ' || c == '\t' || c == '\n' || c == '\r' || c == '\u{b}' || c == '\u{c}' || c
        == '\u{85}' || c == '\u{a0}' || c == '\u{1680}' || ('\u{2000}' <= c && c <= '\u{200a}') || c
        == '\u{2028}' || c == '\u{2029}' || c == '\u{202f}' || c == '\u{205f}' || c == '\u{3000}'
}

/// `s` with every trailing White_Space character removed.
pub open spec fn trim_end_spec(s: Seq<char>) -> Seq<char>
    decreases s.len(),
{
    if s.len() > 0 && is_space_char(s.last()) {
        trim_end_spec(s.drop_last())
    } else {
        s
    }
}

/// Removes trailing whitespace.
pub fn trim_end_str(s: &str) -> (r: &str)
    ensures
        r@ == trim_end_spec(s@),
{
    let len = s.unicode_len();
    let mut e = len;
    proof {
        assert(s@.subrange(0, len as int) =~= s@);
    }
    while e > 0 && is_space(s.get_char(e - 1))
        invariant
            len == s@.len(),
            0 <= e <= len,
            trim_end_spec(s@) == trim_end_spec(s@.subrange(0, e as int)),
        decreases e,
    {
        proof {
            let pre = s@.subrange(0, e as int);
            assert(pre.last() == s@[e - 1]);
            assert(pre.drop_last() =~= s@.subrange(0, e - 1));
        }
        e = e - 1;
    }
    proof {
        let pre = s@.subrange(0, e as int);
        if e > 0 {
            assert(!is_space_char(pre.last()));
        }
        assert(trim_end_spec(pre) == pre);
    }
    s.substring_char(0, e)
}

/// The decimal digit character for `d`, defined for `0 <= d <= 9`.
pub open spec fn dec_digit(d: int) -> char {
    if d == 0 {
        '0'
    } else if d == 1 {
        '1'
    } else if d == 2 {
        '2'
    } else if d == 3 {
        '3'
    } else if d == 4 {
        '4'
    } else if d == 5 {
        '5'
    } else if d == 6 {
        '6'
    } else if d == 7 {
        '7'
    } else if d == 8 {
        '8'
    } else {
        '9'
    }
}

/// The decimal rendering of `n`, without a sign and without leading zeros
/// (a single `'0'` for zero).
pub open spec fn dec_of(n: int) -> Seq<char>
    decreases n,
{
    if n < 10 {
        seq![dec_digit(n)]
    } else {
        dec_of(n / 10).push(dec_digit(n % 10))
    }
}

fn dec_digit_exec(d: u64) -> (c: char)
    requires
        d <= 9,
    ensures
        c == dec_digit(d as int),
{
    if d == 0 {
        '0'
    } else if d == 1 {
        '1'
    } else if d == 2 {
        '2'
    } else if d == 3 {
        '3'
    } else if d == 4 {
        '4'
    } else if d == 5 {
        '5'
    } else if d == 6 {
        '6'
    } else if d == 7 {
        '7'
    } else if d == 8 {
        '8'
    } else {
        '9'
    }
}

/// Renders `n` in decimal.
pub fn u64_to_dec(n: u64) -> (r: String)
    ensures
        r@ == dec_of(n as int),
    decreases n,
{
    if n < 10 {
        let mut s = String::new();
        push_char(&mut s, dec_digit_exec(n));
        proof {
            assert(s@ =~= dec_of(n as int));
        }
        s
    } else {
        let mut s = u64_to_dec(n / 10);
        push_char(&mut s, dec_digit_exec(n % 10));
        s
    }
}

/// The value of a hexadecimal digit, or `-1` for any other character.
pub open spec fn hex_digit_val(c: char) -> int {
    if '0' <= c && c <= '9' {
        c as int - '0' as int
    } else if 'a' <= c && c <= 'f' {
        c as int - 'a' as int + 10
    } else if 'A' <= c && c <= 'F' {
        c as int - 'A' as int + 10
    } else {
        -1
    }
}

pub open spec fn is_hex_digit(c: char) -> bool {
    hex_digit_val(c) >= 0
}

/// The digits of a hexadecimal numeral: the text with one optional leading
/// `'+'` removed.
pub open spec fn hex_body(s: Seq<char>) -> Seq<char> {
    if s.len() > 0 && s[0] == '+' {
        s.skip(1)
    } else {
        s
    }
}

/// The value of a sequence of hexadecimal digits.
pub open spec fn hex_value(s: Seq<char>) -> int
    decreases s.len(),
{
    if s.len() == 0 {
        0
    } else {
        hex_value(s.drop_last()) * 16 + hex_digit_val(s.last())
    }
}

/// Every character of `b` is a hexadecimal digit.
pub open spec fn all_hex_digits(b: Seq<char>) -> bool {
    forall|i: int| 0 <= i < b.len() ==> is_hex_digit(#[trigger] b[i])
}

/// `s` parses as a hexadecimal byte: at least one digit after the optional
/// sign, all characters are hexadecimal digits, and the value fits in `u8`.
pub open spec fn hex_u8_valid(s: Seq<char>) -> bool {
    hex_body(s).len() > 0 && all_hex_digits(hex_body(s)) && hex_value(hex_body(s)) < 256
}

proof fn lemma_hex_value_nonneg(s: Seq<char>)
    requires
        all_hex_digits(s),
    ensures
        hex_value(s) >= 0,
    decreases s.len(),
{
    if s.len() > 0 {
        lemma_hex_value_nonneg(s.drop_last());
    }
}

proof fn lemma_hex_value_prefix_le(s: Seq<char>, i: int)
    requires
        0 <= i <= s.len(),
        all_hex_digits(s),
    ensures
        hex_value(s.subrange(0, i)) <= hex_value(s),
    decreases s.len() - i,
{
    if i == s.len() {
        assert(s.subrange(0, i) =~= s);
    } else {
        lemma_hex_value_prefix_le(s, i + 1);
        let p = s.subrange(0, i);
        assert(all_hex_digits(p));
        let q = s.subrange(0, i + 1);
        assert(q.drop_last() =~= p);
        assert(q.last() == s[i]);
        lemma_hex_value_nonneg(p);
        assert(hex_value(q) == hex_value(p) * 16 + hex_digit_val(s[i]));
        assert(hex_value(p) * 16 >= hex_value(p)) by (nonlinear_arith)
            requires
                hex_value(p) >= 0,
        ;
    }
}

fn hex_digit_exec(c: char) -> (v: i32)
    ensures
        v == hex_digit_val(c),
{
    if '0' <= c && c <= '9' {
        (c as u32 as i32) - ('0' as u32 as i32)
    } else if 'a' <= c && c <= 'f' {
        (c as u32 as i32) - ('a' as u32 as i32) + 10
    } else if 'A' <= c && c <= 'F' {
        (c as u32 as i32) - ('A' as u32 as i32) + 10
    } else {
        -1
    }
}

/// Parses a hexadecimal byte as `u8::from_str_radix(s, 16)` does: an optional
/// leading `'+'`, then one or more hexadecimal digits whose value fits.
pub fn parse_hex_u8(s: &str) -> (r: Option<u8>)
    ensures
        r is Some <==> hex_u8_valid(s@),
        r matches Some(v) ==> v as int == hex_value(hex_body(s@)),
{
    let len = s.unicode_len();
    let start: usize = if len > 0 && s.get_char(0) == '+' {
        1
    } else {
        0
    };
    proof {
        assert(hex_body(s@) =~= s@.skip(start as int));
    }
    if start >= len {
        return None;
    }
    let ghost body = hex_body(s@);
    let mut acc: u32 = 0;
    let mut i: usize = start;
    while i < len
        invariant
            len == s@.len(),
            start <= i <= len,
            start < len,
            body == hex_body(s@),
            body == s@.skip(start as int),
            body.len() == len - start,
            forall|j: int| 0 <= j < i - start ==> is_hex_digit(#[trigger] body[j]),
            acc <= 4095,
            acc as int == hex_value(body.subrange(0, i - start)),
            acc <= 255,
        decreases len - i,
    {
        let c = s.get_char(i);
        proof {
            assert(body[i - start] == s@[i as int]);
        }
        let d = hex_digit_exec(c);
        if d < 0 {
            proof {
                assert(!is_hex_digit(body[i - start]));
                assert(!all_hex_digits(body));
            }
            return None;
        }
        proof {
            let p = body.subrange(0, i - start);
            let q = body.subrange(0, i + 1 - start);
            assert(q.drop_last() =~= p);
            assert(q.last() == body[i - start]);
        }
        acc = acc * 16 + (d as u32);
        if acc > 255 {
            proof {
                let q = body.subrange(0, i + 1 - start);
                assert(hex_value(q) == acc);
                if hex_u8_valid(s@) {
                    assert(all_hex_digits(body));
                    lemma_hex_value_prefix_le(body, i + 1 - start);
                    assert(false);
                }
            }
            return None;
        }
        i += 1;
    }
    proof {
        assert(body.subrange(0, len - start) =~= body);
        assert(all_hex_digits(body));
    }
    Some(acc as u8)
}

/// What `char::is_alphanumeric` returns: whether the character is a Unicode
/// letter or number.
pub uninterp spec fn char_alnum(c: char) -> bool;

/// The ASCII letters and digits.
pub open spec fn ascii_alnum(c: char) -> bool {
    ('0' <= c && c <= '9') || ('a' <= c && c <= 'z') || ('A' <= c && c <= 'Z')
}

/// Relies on char::is_alphanumeric: true exactly for the Unicode general
/// categories of letters and numbers, a property of the character alone; on
/// the ASCII range those are the letters and the digits and nothing else.
#[verifier::external_body]
pub fn is_alphanumeric_char(c: char) -> (r: bool)
    ensures
        r == char_alnum(c),
        (c as u32) < 128 ==> r == ascii_alnum(c),
{
    c.is_alphanumeric()
}


/// The pieces joined with the single separator `sep`.
pub open spec fn join_char(items: Seq<Seq<char>>, sep: char) -> Seq<char>
    decreases items,
{
    if items.len() == 0 {
        Seq::empty()
    } else if items.len() == 1 {
        items[0]
    } else {
        join_char(items.drop_last(), sep) + seq![sep] + items.last()
    }
}

/// Joins the given strings with `sep`.
#[verifier::loop_isolation(false)]
pub fn join_char_exec(items: &Vec<String>, sep: char) -> (r: String)
    ensures
        r@ == join_char(items.deep_view(), sep),
{
    let mut r = String::new();
    let mut i: usize = 0;
    while i < items.len()
        invariant
            0 <= i <= items@.len(),
            r@ == join_char(items.deep_view().subrange(0, i as int), sep),
        decreases items@.len() - i,
    {
        proof {
            let dv = items.deep_view();
            let p = dv.subrange(0, i as int);
            let q = dv.subrange(0, i + 1);
            assert(q.drop_last() =~= p);
            assert(q.last() == dv[i as int]);
            if i == 0 {
                assert(q =~= seq![dv[0]]);
            }
        }
        if i > 0 {
            push_char(&mut r, sep);
        }
        r.append(items[i].as_str());
        proof {
            let dv = items.deep_view();
            if i == 0 {
                assert(r@ =~= dv[0]);
            }
        }
        i += 1;
    }
    proof {
        assert(items.deep_view().subrange(0, items@.len() as int) =~= items.deep_view());
    }
    r
}

/// Splitting at every occurrence of `sep`, empty fields kept, the current
/// field accumulating in `cur`.
pub open spec fn split_acc(s: Seq<char>, sep: char, cur: Seq<char>) -> Seq<Seq<char>>
    decreases s.len(),
{
    if s.len() == 0 {
        seq![cur]
    } else if s[0] == sep {
        seq![cur] + split_acc(s.skip(1), sep, Seq::empty())
    } else {
        split_acc(s.skip(1), sep, cur.push(s[0]))
    }
}

/// The fields of `s` split at `sep`, empty fields kept; the empty text has
/// one empty field.
pub open spec fn split_all(s: Seq<char>, sep: char) -> Seq<Seq<char>> {
    split_acc(s, sep, Seq::empty())
}

/// Splits `s` at every occurrence of `sep`.
#[verifier::loop_isolation(false)]
pub fn split_char(s: &str, sep: char) -> (r: Vec<String>)
    ensures
        r.deep_view() == split_all(s@, sep),
{
    let len = s.unicode_len();
    let mut out: Vec<String> = Vec::new();
    let mut cur = String::new();
    let mut i: usize = 0;
    proof {
        assert(s@.skip(0) =~= s@);
        assert(out.deep_view() + split_acc(s@, sep, cur@) =~= split_all(s@, sep));
    }
    while i < len
        invariant
            0 <= i <= len,
            len == s@.len(),
            out.deep_view() + split_acc(s@.skip(i as int), sep, cur@) == split_all(s@, sep),
        decreases len - i,
    {
        proof {
            assert(s@.skip(i as int)[0] == s@[i as int]);
            assert(s@.skip(i as int).skip(1) =~= s@.skip(i + 1));
        }
        let c = s.get_char(i);
        if c == sep {
            let done = cur;
            cur = String::new();
            out.push(done);
            proof {
                assert(out.deep_view() + split_acc(s@.skip(i + 1), sep, cur@) =~= split_all(
                    s@,
                    sep,
                ));
            }
        } else {
            push_char(&mut cur, c);
        }
        i += 1;
    }
    proof {
        assert(s@.skip(len as int) =~= Seq::<char>::empty());
    }
    out.push(cur);
    proof {
        assert(out.deep_view() =~= split_all(s@, sep));
    }
    out
}

/// The non-empty pieces, in order.
pub open spec fn keep_nonempty(items: Seq<Seq<char>>) -> Seq<Seq<char>>
    decreases items,
{
    if items.len() == 0 {
        Seq::empty()
    } else {
        keep_nonempty(items.drop_last()) + (if items.last().len() > 0 {
            seq![items.last()]
        } else {
            Seq::<Seq<char>>::empty()
        })
    }
}

/// Keeps the non-empty strings.
#[verifier::loop_isolation(false)]
pub fn keep_nonempty_exec(items: &Vec<String>) -> (r: Vec<String>)
    ensures
        r.deep_view() == keep_nonempty(items.deep_view()),
{
    let mut out: Vec<String> = Vec::new();
    let mut i: usize = 0;
    while i < items.len()
        invariant
            0 <= i <= items@.len(),
            out.deep_view() == keep_nonempty(items.deep_view().subrange(0, i as int)),
        decreases items@.len() - i,
    {
        proof {
            let dv = items.deep_view();
            let p = dv.subrange(0, i as int);
            let q = dv.subrange(0, i + 1);
            assert(q.drop_last() =~= p);
            assert(q.last() == dv[i as int]);
        }
        if !items[i].as_str().is_empty() {
            out.push(items[i].clone());
        }
        proof {
            let dv = items.deep_view();
            assert(out.deep_view() =~= keep_nonempty(dv.subrange(0, i + 1)));
        }
        i += 1;
    }
    proof {
        assert(items.deep_view().subrange(0, items@.len() as int) =~= items.deep_view());
    }
    out
}

/// The value of a decimal digit, or `-1` for any other character.
pub open spec fn dec_digit_val(c: char) -> int {
    if '0' <= c && c <= '9' {
        c as int - '0' as int
    } else {
        -1
    }
}

pub open spec fn is_dec_digit(c: char) -> bool {
    dec_digit_val(c) >= 0
}

/// Every character of `b` is a decimal digit.
pub open spec fn all_dec_digits(b: Seq<char>) -> bool {
    forall|i: int| 0 <= i < b.len() ==> is_dec_digit(#[trigger] b[i])
}

/// The digits of a decimal numeral: the text with one optional leading
/// `'+'` removed.
pub open spec fn dec_body(s: Seq<char>) -> Seq<char> {
    if s.len() > 0 && s[0] == '+' {
        s.skip(1)
    } else {
        s
    }
}

/// The value of a sequence of decimal digits.
pub open spec fn dec_value(s: Seq<char>) -> int
    decreases s.len(),
{
    if s.len() == 0 {
        0
    } else {
        dec_value(s.drop_last()) * 10 + dec_digit_val(s.last())
    }
}

/// `s` parses as a non-negative machine integer: at least one digit after
/// the optional sign, all characters are decimal digits, and the value fits.
pub open spec fn dec_usize_valid(s: Seq<char>) -> bool {
    dec_body(s).len() > 0 && all_dec_digits(dec_body(s)) && dec_value(dec_body(s)) <= usize::MAX
}

proof fn lemma_dec_value_nonneg(s: Seq<char>)
    requires
        all_dec_digits(s),
    ensures
        dec_value(s) >= 0,
    decreases s.len(),
{
    if s.len() > 0 {
        lemma_dec_value_nonneg(s.drop_last());
    }
}

proof fn lemma_dec_value_prefix_le(s: Seq<char>, i: int)
    requires
        0 <= i <= s.len(),
        all_dec_digits(s),
    ensures
        dec_value(s.subrange(0, i)) <= dec_value(s),
    decreases s.len() - i,
{
    if i == s.len() {
        assert(s.subrange(0, i) =~= s);
    } else {
        lemma_dec_value_prefix_le(s, i + 1);
        let p = s.subrange(0, i);
        let q = s.subrange(0, i + 1);
        assert(q.drop_last() =~= p);
        assert(q.last() == s[i]);
        assert(all_dec_digits(p));
        lemma_dec_value_nonneg(p);
        assert(dec_value(q) == dec_value(p) * 10 + dec_digit_val(s[i]));
        assert(dec_value(p) * 10 >= dec_value(p)) by (nonlinear_arith)
            requires
                dec_value(p) >= 0,
        ;
    }
}

/// Parses a non-negative integer as `str::parse::<usize>` does: an optional
/// leading `'+'`, then one or more decimal digits whose value fits.
#[verifier::loop_isolation(false)]
pub fn parse_dec_usize(s: &str) -> (r: Option<usize>)
    ensures
        r is Some <==> dec_usize_valid(s@),
        r matches Some(v) ==> v as int == dec_value(dec_body(s@)),
{
    let len = s.unicode_len();
    let start: usize = if len > 0 && s.get_char(0) == '+' {
        1
    } else {
        0
    };
    proof {
        assert(dec_body(s@) =~= s@.skip(start as int));
    }
    if start >= len {
        return None;
    }
    let ghost body = dec_body(s@);
    let mut acc: usize = 0;
    let mut i: usize = start;
    while i < len
        invariant
            len == s@.len(),
            start <= i <= len,
            start < len,
            body == dec_body(s@),
            body == s@.skip(start as int),
            body.len() == len - start,
            forall|j: int| 0 <= j < i - start ==> is_dec_digit(#[trigger] body[j]),
            acc as int == dec_value(body.subrange(0, i - start)),
        decreases len - i,
    {
        let c = s.get_char(i);
        proof {
            assert(body[i - start] == s@[i as int]);
        }
        if c < '0' || c > '9' {
            proof {
                assert(!is_dec_digit(body[i - start]));
                assert(!all_dec_digits(body));
            }
            return None;
        }
        let d: usize = (c as u32 as usize) - ('0' as u32 as usize);
        proof {
            let p = body.subrange(0, i - start);
            let q = body.subrange(0, i + 1 - start);
            assert(q.drop_last() =~= p);
            assert(q.last() == body[i - start]);
        }
        if acc > (usize::MAX - d) / 10 {
            proof {
                let q = body.subrange(0, i + 1 - start);
                assert(dec_value(q) == acc * 10 + d);
                assert(dec_value(q) > usize::MAX) by (nonlinear_arith)
                    requires
                        dec_value(q) == acc * 10 + d,
                        acc > (usize::MAX - d) / 10,
                        0 <= d <= 9,
                ;
                if dec_usize_valid(s@) {
                    assert(all_dec_digits(body));
                    lemma_dec_value_prefix_le(body, i + 1 - start);
                    assert(false);
                }
            }
            return None;
        }
        acc = acc * 10 + d;
        i += 1;
    }
    proof {
        assert(body.subrange(0, len - start) =~= body);
        assert(all_dec_digits(body));
    }
    Some(acc)
}

/// ASCII text without carriage returns.
pub open spec fn ascii_no_cr(s: Seq<char>) -> bool {
    forall|i: int| 0 <= i < s.len() ==> ((#[trigger] s[i]) as u32) < 128 && s[i] != '\r'
}

} // verus!
