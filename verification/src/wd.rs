//! The working-directory derivations: the simplified form that replaces a
//! home-directory prefix by `~`, and the minimal form that compresses every
//! path segment but the last to its first grapheme cluster.

use vstd::prelude::*;
use vstd::string::{StrSliceExecFns, StringExecFns};
use unicode_segmentation::UnicodeSegmentation;
use crate::text::{
    ascii_no_cr, has_prefix, join_char, join_char_exec, keep_nonempty, keep_nonempty_exec,
    push_char, split_all, split_acc, split_char, starts_with_str, str_eq,
};

verus! {

/// What `unicode_segmentation` yields for a text: its extended grapheme
/// clusters, a function of the characters alone.
pub uninterp spec fn graphemes_of(s: Seq<char>) -> Seq<Seq<char>>;

/// Relies on unicode_segmentation::UnicodeSegmentation::graphemes with
/// extended clusters: segmentation depends on the characters alone, the
/// clusters concatenate back to the input and are each non-empty. On ASCII
/// text without carriage returns every character is its own cluster: the
/// only ASCII pair the break rules join is the carriage return followed by
/// a line feed, as the crate's own documentation shows.
#[verifier::external_body]
fn graphemes(s: &str) -> (r: Vec<String>)
    ensures
        r.deep_view() == graphemes_of(s@),
        s@.len() > 0 ==> r.deep_view().len() > 0,
        forall|i: int| 0 <= i < r.deep_view().len() ==> (#[trigger] r.deep_view()[i]).len() > 0,
        ascii_no_cr(s@) ==> r.deep_view() == Seq::new(s@.len(), |i: int| seq![s@[i]]),
{
    UnicodeSegmentation::graphemes(s, true).map(|g| g.to_string()).collect()
}

/// The simplified working directory: the working directory with a leading
/// home-directory prefix replaced by `~`.
pub open spec fn swd_of(pwd: Seq<char>, home: Seq<char>) -> Seq<char> {
    if has_prefix(pwd, home) {
        seq!['~'] + pwd.skip(home.len() as int)
    } else {
        pwd
    }
}

/// Replaces a leading `home` prefix of `pwd` by `~`.
pub fn simplify_directory(pwd: &str, home: &str) -> (r: String)
    ensures
        r@ == swd_of(pwd@, home@),
{
    if starts_with_str(pwd, home) {
        let plen = pwd.unicode_len();
        let hlen = home.unicode_len();
        let mut s = String::new();
        push_char(&mut s, '~');
        s.append(pwd.substring_char(hlen, plen));
        proof {
            assert(s@ =~= swd_of(pwd@, home@));
        }
        s
    } else {
        pwd.to_owned()
    }
}

/// The non-empty `/`-separated segments of a path.
pub open spec fn segments_of(s: Seq<char>) -> Seq<Seq<char>> {
    keep_nonempty(split_all(s, '/'))
}

/// A segment compressed to its first grapheme cluster; a leading `.` keeps
/// the following cluster too, so dotfile prefixes remain recognizable.
pub open spec fn min_segment(seg: Seq<char>) -> Seq<char> {
    let gs = graphemes_of(seg);
    if gs.len() == 0 {
        seg
    } else if gs[0] == seq!['.'] && gs.len() >= 2 {
        gs[0] + gs[1]
    } else {
        gs[0]
    }
}

/// The compression of a segment when every character is its own cluster:
/// its first character, or its first two when it starts with `.`.
pub open spec fn min_segment_ascii(seg: Seq<char>) -> Seq<char> {
    if seg.len() == 0 {
        seg
    } else if seg[0] == '.' && seg.len() >= 2 {
        seg.subrange(0, 2)
    } else {
        seg.subrange(0, 1)
    }
}

/// The minimal working directory: with more than two segments, every
/// segment but the last compressed, joined by `/`; otherwise the simplified
/// directory unchanged.
pub open spec fn mwd_of(swd: Seq<char>) -> Seq<char> {
    let segs = segments_of(swd);
    if segs.len() > 2 {
        join_char(
            segs.subrange(0, segs.len() - 1).map_values(|t: Seq<char>| min_segment(t)).push(
                segs.last(),
            ),
            '/',
        )
    } else {
        swd
    }
}

/// The minimal working directory of ASCII text.
pub open spec fn mwd_ascii(swd: Seq<char>) -> Seq<char> {
    let segs = segments_of(swd);
    if segs.len() > 2 {
        join_char(
            segs.subrange(0, segs.len() - 1).map_values(|t: Seq<char>| min_segment_ascii(t)).push(
                segs.last(),
            ),
            '/',
        )
    } else {
        swd
    }
}

/// Compresses one segment.
fn min_segment_exec(seg: &String) -> (r: String)
    ensures
        r@ == min_segment(seg@),
        ascii_no_cr(seg@) ==> r@ == min_segment_ascii(seg@),
{
    proof {
        reveal_strlit(".");
        assert("."@ =~= seq!['.']);
    }
    let gs = graphemes(seg.as_str());
    proof {
        if ascii_no_cr(seg@) {
            let dv = Seq::new(seg@.len(), |i: int| seq![seg@[i]]);
            assert(gs.deep_view() == dv);
            assert(gs.deep_view().len() == seg@.len());
            if seg@.len() > 0 {
                assert(gs.deep_view()[0] == seq![seg@[0]]);
                assert(gs@[0]@ == seq![seg@[0]]);
            }
            if seg@.len() >= 2 {
                assert(gs.deep_view()[1] == seq![seg@[1]]);
                assert(gs@[1]@ == seq![seg@[1]]);
            }
        }
    }
    if gs.len() == 0 {
        seg.clone()
    } else if str_eq(gs[0].as_str(), ".") && gs.len() >= 2 {
        let mut s = gs[0].clone();
        s.append(gs[1].as_str());
        proof {
            assert(gs@[0]@ == seq!['.']);
            if ascii_no_cr(seg@) {
                assert(seq![seg@[0]] == seq!['.']);
                assert(seq![seg@[0]][0] == seg@[0]);
                assert(seg@[0] == '.');
                assert(seg@.len() >= 2);
                assert(s@ =~= seg@.subrange(0, 2));
            }
        }
        s
    } else {
        proof {
            if ascii_no_cr(seg@) {
                assert(seg@.len() > 0);
                assert(gs@[0]@ == seq![seg@[0]]);
                assert(gs@[0]@ =~= seg@.subrange(0, 1));
                if seg@[0] == '.' && seg@.len() >= 2 {
                    // the first cluster would have read back as a dot
                    assert(gs@[0]@ == seq!['.']) by {
                        assert(seq![seg@[0]] =~= seq!['.']);
                    }
                    assert(gs.deep_view().len() >= 2);
                    assert(false);
                }
            }
        }
        gs[0].clone()
    }
}

/// Computes the minimal working directory from the simplified one.
#[verifier::loop_isolation(false)]
pub fn minimize_directory(swd: &str) -> (r: String)
    ensures
        r@ == mwd_of(swd@),
        ascii_no_cr(swd@) ==> r@ == mwd_ascii(swd@),
{
    let fields = split_char(swd, '/');
    let segs = keep_nonempty_exec(&fields);
    let n = segs.len();
    if n <= 2 {
        return swd.to_owned();
    }
    let ghost sdv = segs.deep_view();
    proof {
        lemma_split_fields_sep_free(swd@, '/', Seq::empty());
        lemma_keep_nonempty_props(split_all(swd@, '/'), '/');
        if ascii_no_cr(swd@) {
            lemma_split_fields_ascii(swd@, '/', Seq::empty());
            lemma_keep_nonempty_ascii(split_all(swd@, '/'));
        }
    }
    proof {
        assert(sdv == segments_of(swd@));
    }
    let mut parts: Vec<String> = Vec::new();
    let mut i: usize = 0;
    while i < n - 1
        invariant
            0 <= i <= n - 1,
            n == sdv.len(),
            parts.deep_view().len() == i,
            forall|j: int| 0 <= j < i ==> parts.deep_view()[j] == min_segment(#[trigger] sdv[j]),
            ascii_no_cr(swd@) ==> forall|j: int|
                0 <= j < i ==> parts.deep_view()[j] == min_segment_ascii(#[trigger] sdv[j]),
        decreases n - 1 - i,
    {
        proof {
            assert(sdv[i as int] == segs@[i as int]@);
            if ascii_no_cr(swd@) {
                assert(ascii_no_cr(sdv[i as int]));
            }
        }
        let m = min_segment_exec(&segs[i]);
        parts.push(m);
        i += 1;
    }
    proof {
        assert(sdv[n - 1] == segs@[n - 1]@);
    }
    parts.push(segs[n - 1].clone());
    proof {
        let target = sdv.subrange(0, n - 1).map_values(|t: Seq<char>| min_segment(t)).push(
            sdv.last(),
        );
        assert(parts.deep_view().len() == target.len());
        assert(forall|j: int|
            0 <= j < n - 1 ==> target[j] == min_segment(#[trigger] sdv.subrange(0, n - 1)[j]));
        assert(parts.deep_view() =~= target);
        if ascii_no_cr(swd@) {
            let target2 = sdv.subrange(0, n - 1).map_values(
                |t: Seq<char>| min_segment_ascii(t),
            ).push(sdv.last());
            assert(forall|j: int|
                0 <= j < n - 1 ==> target2[j] == min_segment_ascii(
                    #[trigger] sdv.subrange(0, n - 1)[j],
                ));
            assert(parts.deep_view() =~= target2);
        }
    }
    join_char_exec(&parts, '/')
}

/// No character of `t` is `sep`.
pub open spec fn sep_free(t: Seq<char>, sep: char) -> bool {
    forall|k: int| 0 <= k < t.len() ==> (#[trigger] t[k]) != sep
}

proof fn lemma_split_fields_sep_free(s: Seq<char>, sep: char, cur: Seq<char>)
    requires
        sep_free(cur, sep),
    ensures
        forall|j: int|
            0 <= j < split_acc(s, sep, cur).len() ==> sep_free(
                #[trigger] split_acc(s, sep, cur)[j],
                sep,
            ),
    decreases s.len(),
{
    let out = split_acc(s, sep, cur);
    if s.len() == 0 {
        assert(out == seq![cur]);
        assert(out[0] == cur);
    } else if s[0] == sep {
        lemma_split_fields_sep_free(s.skip(1), sep, Seq::empty());
        let rest = split_acc(s.skip(1), sep, Seq::empty());
        assert(out == seq![cur] + rest);
        assert forall|j: int| 0 <= j < out.len() implies sep_free(#[trigger] out[j], sep) by {
            if j == 0 {
                assert(out[j] == cur);
            } else {
                assert(out[j] == rest[j - 1]);
            }
        }
    } else {
        assert(sep_free(cur.push(s[0]), sep));
        lemma_split_fields_sep_free(s.skip(1), sep, cur.push(s[0]));
        assert(out == split_acc(s.skip(1), sep, cur.push(s[0])));
    }
}

proof fn lemma_split_fields_ascii(s: Seq<char>, sep: char, cur: Seq<char>)
    requires
        ascii_no_cr(s),
        ascii_no_cr(cur),
    ensures
        forall|j: int|
            0 <= j < split_acc(s, sep, cur).len() ==> ascii_no_cr(
                #[trigger] split_acc(s, sep, cur)[j],
            ),
    decreases s.len(),
{
    let out = split_acc(s, sep, cur);
    if s.len() == 0 {
        assert(out == seq![cur]);
        assert(out[0] == cur);
    } else {
        assert(ascii_no_cr(s.skip(1)));
        if s[0] == sep {
            lemma_split_fields_ascii(s.skip(1), sep, Seq::empty());
            let rest = split_acc(s.skip(1), sep, Seq::empty());
            assert(out == seq![cur] + rest);
            assert forall|j: int| 0 <= j < out.len() implies ascii_no_cr(#[trigger] out[j]) by {
                if j == 0 {
                    assert(out[j] == cur);
                } else {
                    assert(out[j] == rest[j - 1]);
                }
            }
        } else {
            assert(ascii_no_cr(cur.push(s[0])));
            lemma_split_fields_ascii(s.skip(1), sep, cur.push(s[0]));
            assert(out == split_acc(s.skip(1), sep, cur.push(s[0])));
        }
    }
}

proof fn lemma_keep_nonempty_props(items: Seq<Seq<char>>, sep: char)
    requires
        forall|i: int| 0 <= i < items.len() ==> sep_free(#[trigger] items[i], sep),
    ensures
        forall|j: int|
            0 <= j < keep_nonempty(items).len() ==> (#[trigger] keep_nonempty(items)[j]).len() > 0
                && sep_free(keep_nonempty(items)[j], sep),
    decreases items,
{
    let out = keep_nonempty(items);
    if items.len() > 0 {
        assert(forall|i: int|
            0 <= i < items.len() - 1 ==> #[trigger] items.drop_last()[i] == items[i]);
        lemma_keep_nonempty_props(items.drop_last(), sep);
        let front = keep_nonempty(items.drop_last());
        assert forall|j: int| 0 <= j < out.len() implies (#[trigger] out[j]).len() > 0 && sep_free(
            out[j],
            sep,
        ) by {
            if j < front.len() {
                assert(out[j] == front[j]);
            } else {
                assert(items.last().len() > 0);
                assert(out[j] == items.last());
                assert(items[items.len() - 1] == items.last());
            }
        }
    }
}

proof fn lemma_keep_nonempty_ascii(items: Seq<Seq<char>>)
    requires
        forall|i: int| 0 <= i < items.len() ==> ascii_no_cr(#[trigger] items[i]),
    ensures
        forall|j: int|
            0 <= j < keep_nonempty(items).len() ==> ascii_no_cr(#[trigger] keep_nonempty(items)[j]),
    decreases items,
{
    let out = keep_nonempty(items);
    if items.len() > 0 {
        assert(forall|i: int|
            0 <= i < items.len() - 1 ==> #[trigger] items.drop_last()[i] == items[i]);
        lemma_keep_nonempty_ascii(items.drop_last());
        let front = keep_nonempty(items.drop_last());
        assert forall|j: int| 0 <= j < out.len() implies ascii_no_cr(#[trigger] out[j]) by {
            if j < front.len() {
                assert(out[j] == front[j]);
            } else {
                assert(out[j] == items.last());
                assert(items[items.len() - 1] == items.last());
            }
        }
    }
}

proof fn lemma_join_front(parts: Seq<Seq<char>>, sep: char)
    requires
        parts.len() >= 2,
    ensures
        join_char(parts, sep) == parts[0] + seq![sep] + join_char(parts.skip(1), sep),
    decreases parts.len(),
{
    if parts.len() == 2 {
        assert(parts.drop_last() =~= seq![parts[0]]);
        assert(parts.skip(1) =~= seq![parts[1]]);
        assert(join_char(parts, sep) == parts[0] + seq![sep] + parts[1]);
    } else {
        lemma_join_front(parts.drop_last(), sep);
        assert(parts.drop_last()[0] == parts[0]);
        assert(parts.drop_last().skip(1) =~= parts.skip(1).drop_last());
        assert(parts.skip(1).last() == parts.last());
        assert(parts.skip(1).len() >= 2);
        assert(join_char(parts, sep) == join_char(parts.drop_last(), sep) + seq![sep]
            + parts.last());
        assert(join_char(parts, sep) == parts[0] + seq![sep] + (join_char(
            parts.skip(1).drop_last(),
            sep,
        ) + seq![sep] + parts.skip(1).last())) by {
            assert((parts[0] + seq![sep] + join_char(parts.skip(1).drop_last(), sep)) + seq![sep]
                + parts.last() =~= parts[0] + seq![sep] + (join_char(parts.skip(1).drop_last(), sep)
                + seq![sep] + parts.skip(1).last()));
        }
    }
}

proof fn lemma_split_over_piece(x: Seq<char>, rest: Seq<char>, sep: char, cur: Seq<char>)
    requires
        sep_free(x, sep),
    ensures
        split_acc(x + rest, sep, cur) == split_acc(rest, sep, cur + x),
    decreases x.len(),
{
    if x.len() == 0 {
        assert(x + rest =~= rest);
        assert(cur + x =~= cur);
    } else {
        assert((x + rest)[0] == x[0]);
        assert(x[0] != sep);
        assert((x + rest).skip(1) =~= x.skip(1) + rest);
        assert(sep_free(x.skip(1), sep));
        lemma_split_over_piece(x.skip(1), rest, sep, cur.push(x[0]));
        assert(cur.push(x[0]) + x.skip(1) =~= cur + x);
        if (x + rest).len() == 0 {
        } else {
            assert(split_acc(x + rest, sep, cur) == split_acc((x + rest).skip(1), sep, cur.push(
                x[0],
            )));
        }
    }
}

proof fn lemma_split_of_join(parts: Seq<Seq<char>>, sep: char, cur: Seq<char>)
    requires
        parts.len() >= 1,
        forall|i: int| 0 <= i < parts.len() ==> sep_free(#[trigger] parts[i], sep),
    ensures
        split_acc(join_char(parts, sep), sep, cur) == seq![cur + parts[0]] + parts.skip(1),
    decreases parts.len(),
{
    if parts.len() == 1 {
        assert(join_char(parts, sep) == parts[0]);
        lemma_split_over_piece(parts[0], Seq::empty(), sep, cur);
        assert(parts[0] + Seq::<char>::empty() =~= parts[0]);
        assert(split_acc(Seq::empty(), sep, cur + parts[0]) == seq![cur + parts[0]]);
        assert(seq![cur + parts[0]] + parts.skip(1) =~= seq![cur + parts[0]]);
    } else {
        lemma_join_front(parts, sep);
        let tail = join_char(parts.skip(1), sep);
        assert(parts[0] + seq![sep] + tail =~= parts[0] + (seq![sep] + tail));
        lemma_split_over_piece(parts[0], seq![sep] + tail, sep, cur);
        assert((seq![sep] + tail)[0] == sep);
        assert((seq![sep] + tail).skip(1) =~= tail);
        assert(forall|i: int|
            0 <= i < parts.skip(1).len() ==> #[trigger] parts.skip(1)[i] == parts[i + 1]);
        lemma_split_of_join(parts.skip(1), sep, Seq::empty());
        assert(Seq::<char>::empty() + parts.skip(1)[0] =~= parts[1]);
        assert(split_acc(join_char(parts, sep), sep, cur) == seq![cur + parts[0]] + (seq![parts[1]]
            + parts.skip(1).skip(1)));
        assert(seq![cur + parts[0]] + (seq![parts[1]] + parts.skip(1).skip(1)) =~= seq![cur
            + parts[0]] + parts.skip(1));
    }
}

proof fn lemma_keep_nonempty_id(items: Seq<Seq<char>>)
    requires
        forall|i: int| 0 <= i < items.len() ==> (#[trigger] items[i]).len() > 0,
    ensures
        keep_nonempty(items) == items,
    decreases items,
{
    if items.len() > 0 {
        assert(forall|i: int|
            0 <= i < items.len() - 1 ==> #[trigger] items.drop_last()[i] == items[i]);
        lemma_keep_nonempty_id(items.drop_last());
        assert(items[items.len() - 1] == items.last());
        assert(items.last().len() > 0);
        assert(keep_nonempty(items) == items.drop_last() + seq![items.last()]);
        assert(keep_nonempty(items) =~= items);
    } else {
        assert(keep_nonempty(items) =~= items);
    }
}

/// Re-splitting the joined compressed segments yields them back.
proof fn lemma_segments_of_join(parts: Seq<Seq<char>>)
    requires
        parts.len() >= 1,
        forall|i: int| 0 <= i < parts.len() ==> sep_free(#[trigger] parts[i], '/'),
        forall|i: int| 0 <= i < parts.len() ==> (#[trigger] parts[i]).len() > 0,
    ensures
        segments_of(join_char(parts, '/')) == parts,
{
    lemma_split_of_join(parts, '/', Seq::empty());
    assert(Seq::<char>::empty() + parts[0] =~= parts[0]);
    assert(seq![parts[0]] + parts.skip(1) =~= parts);
    lemma_keep_nonempty_id(parts);
}

proof fn lemma_min_segment_ascii_idempotent(seg: Seq<char>)
    ensures
        min_segment_ascii(min_segment_ascii(seg)) == min_segment_ascii(seg),
{
    let m = min_segment_ascii(seg);
    if seg.len() == 0 {
    } else if seg[0] == '.' && seg.len() >= 2 {
        assert(m.len() == 2 && m[0] == '.');
        assert(min_segment_ascii(m) =~= m);
    } else {
        assert(m.len() == 1);
        if m[0] == '.' {
            assert(min_segment_ascii(m) =~= m);
        } else {
            assert(min_segment_ascii(m) =~= m);
        }
    }
}

/// The minimal working directory is idempotent: compressing an already
/// compressed path changes nothing. Stated for the character-level
/// derivation, which the executable one follows on ASCII paths.
pub proof fn lemma_minimal_directory_idempotent(s: Seq<char>)
    ensures
        mwd_ascii(mwd_ascii(s)) == mwd_ascii(s),
{
    let segs = segments_of(s);
    lemma_split_fields_sep_free(s, '/', Seq::empty());
    lemma_keep_nonempty_props(split_all(s, '/'), '/');
    if segs.len() > 2 {
        let init = segs.subrange(0, segs.len() - 1);
        let parts = init.map_values(|t: Seq<char>| min_segment_ascii(t)).push(segs.last());
        let r = join_char(parts, '/');
        assert(forall|i: int| 0 <= i < parts.len() ==> sep_free(#[trigger] parts[i], '/')) by {
            assert(forall|i: int|
                0 <= i < init.len() ==> parts[i] == min_segment_ascii(#[trigger] init[i]));
            assert(forall|i: int| 0 <= i < init.len() ==> sep_free(#[trigger] init[i], '/'));
            assert(forall|i: int|
                0 <= i < init.len() ==> sep_free(min_segment_ascii(#[trigger] init[i]), '/')) by {
                assert(forall|i: int, k: int|
                    0 <= i < init.len() && 0 <= k < min_segment_ascii(#[trigger] init[i]).len()
                        ==> min_segment_ascii(init[i])[k] == (#[trigger] init[i][k]));
            }
            assert(parts[parts.len() - 1] == segs.last());
        }
        assert(forall|i: int| 0 <= i < parts.len() ==> (#[trigger] parts[i]).len() > 0) by {
            assert(forall|i: int|
                0 <= i < init.len() ==> parts[i] == min_segment_ascii(#[trigger] init[i]));
            assert(forall|i: int| 0 <= i < init.len() ==> (#[trigger] init[i]).len() > 0);
            assert(parts[parts.len() - 1] == segs.last());
        }
        lemma_segments_of_join(parts);
        assert(segments_of(r) == parts);
        assert(parts.len() == segs.len());
        let init2 = parts.subrange(0, parts.len() - 1);
        let parts2 = init2.map_values(|t: Seq<char>| min_segment_ascii(t)).push(parts.last());
        assert(parts2 =~= parts) by {
            assert(forall|i: int|
                0 <= i < init2.len() ==> parts2[i] == min_segment_ascii(#[trigger] init2[i]));
            assert(forall|i: int| 0 <= i < init2.len() ==> #[trigger] init2[i] == parts[i]);
            assert(forall|i: int|
                0 <= i < init.len() ==> parts[i] == min_segment_ascii(#[trigger] init[i]));
            assert(forall|i: int|
                0 <= i < init2.len() ==> min_segment_ascii(#[trigger] parts[i]) == parts[i]) by {
                assert(forall|i: int|
                    0 <= i < init.len() ==> min_segment_ascii(min_segment_ascii(
                        #[trigger] init[i],
                    )) == min_segment_ascii(init[i])) by {
                    assert forall|i: int| 0 <= i < init.len() implies min_segment_ascii(
                        min_segment_ascii(#[trigger] init[i]),
                    ) == min_segment_ascii(init[i]) by {
                        lemma_min_segment_ascii_idempotent(init[i]);
                    }
                }
            }
            assert(parts2[parts2.len() - 1] == parts.last());
        }
        assert(mwd_ascii(r) == join_char(parts2, '/'));
    } else {
        assert(mwd_ascii(s) == s);
    }
}

} // verus!
