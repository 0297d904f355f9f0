//! The tilde-expansion sub-language: home, previous and current directory,
//! directory-stack indices, and per-user homes.

use vstd::prelude::*;
use vstd::string::{StrSliceExecFns, StringExecFns};
use crate::retrieve::string_lookup;
use crate::store::{StoreView, Variables};
use crate::text::{dec_body, dec_usize_valid, dec_value, parse_dec_usize, push_char};

verus! {

/// The result of a tilde expansion: an expanded word, a request to resolve
/// a user's home directory (the caller appends the remainder to it), or
/// nothing.
pub enum TildeOutcome {
    Expanded(String),
    NeedsUser { user: String, remainder: String },
    Absent,
}

/// The view of a tilde-expansion result.
pub enum TildeView {
    Expanded(Seq<char>),
    NeedsUser { user: Seq<char>, remainder: Seq<char> },
    Absent,
}

impl View for TildeOutcome {
    type V = TildeView;

    open spec fn view(&self) -> TildeView {
        match self {
            TildeOutcome::Expanded(s) => TildeView::Expanded(s@),
            TildeOutcome::NeedsUser { user, remainder } => TildeView::NeedsUser {
                user: user@,
                remainder: remainder@,
            },
            TildeOutcome::Absent => TildeView::Absent,
        }
    }
}

/// Where the word splits: the first `/` or `$`, or its end.
pub open spec fn tilde_sep_idx(w: Seq<char>) -> int
    decreases w.len(),
{
    if w.len() == 0 {
        0
    } else if w[0] == '/' || w[0] == '$' {
        0
    } else {
        1 + tilde_sep_idx(w.skip(1))
    }
}

/// The prefix between the tilde and the split.
pub open spec fn tilde_prefix(w: Seq<char>) -> Seq<char> {
    if tilde_sep_idx(w) >= 1 {
        w.subrange(1, tilde_sep_idx(w))
    } else {
        Seq::empty()
    }
}

/// The remainder from the split onward, appended literally to the resolved
/// path.
pub open spec fn tilde_rest(w: Seq<char>) -> Seq<char> {
    w.skip(tilde_sep_idx(w))
}

/// What tilde expansion yields. A word not starting with `~` is returned
/// unchanged. `~` resolves to the environment's home (absent when unset),
/// `~+` to its working directory (`?` when unset), `~-` to the stored
/// previous directory (absent when unresolvable). A numeric prefix indexes
/// the directory stack, `dirs` ordered top first: `~-N` counts from the
/// top, `~+N` and `~N` from the bottom; out of range is absent. Any other
/// prefix asks the caller for that user's home.
pub open spec fn tilde_spec(sv: StoreView, w: Seq<char>, dirs: Seq<Seq<char>>) -> TildeView {
    if !(w.len() > 0 && w[0] == '~') {
        TildeView::Expanded(w)
    } else {
        let pre = tilde_prefix(w);
        let rem = tilde_rest(w);
        if pre.len() == 0 {
            if sv.env.contains_key("HOME"@) {
                TildeView::Expanded(sv.env["HOME"@] + rem)
            } else {
                TildeView::Absent
            }
        } else if pre == seq!['+'] {
            if sv.env.contains_key("PWD"@) {
                TildeView::Expanded(sv.env["PWD"@] + rem)
            } else {
                TildeView::Expanded(seq!['?'] + rem)
            }
        } else if pre == seq!['-'] {
            match string_lookup(sv, "OLDPWD"@) {
                Some(o) => TildeView::Expanded(o + rem),
                None => TildeView::Absent,
            }
        } else {
            let neg = pre[0] == '-';
            let numtext = if pre[0] == '+' || pre[0] == '-' {
                pre.skip(1)
            } else {
                pre
            };
            if dec_usize_valid(numtext) {
                let idx = dec_value(dec_body(numtext));
                if neg {
                    if idx < dirs.len() {
                        TildeView::Expanded(dirs[idx] + rem)
                    } else {
                        TildeView::Absent
                    }
                } else {
                    if idx < dirs.len() {
                        TildeView::Expanded(dirs[dirs.len() - 1 - idx] + rem)
                    } else {
                        TildeView::Absent
                    }
                }
            } else {
                TildeView::NeedsUser { user: pre, remainder: rem }
            }
        }
    }
}

proof fn lemma_sep_idx_found(w: Seq<char>, i: int)
    requires
        0 <= i < w.len(),
        w[i] == '/' || w[i] == '$',
        forall|j: int| 0 <= j < i ==> !((#[trigger] w[j]) == '/' || w[j] == '$'),
    ensures
        tilde_sep_idx(w) == i,
    decreases i,
{
    if i > 0 {
        let t = w.skip(1);
        assert(forall|j: int| 0 <= j < t.len() ==> (#[trigger] t[j]) == w[j + 1]);
        lemma_sep_idx_found(t, i - 1);
    }
}

proof fn lemma_sep_idx_absent(w: Seq<char>)
    requires
        forall|j: int| 0 <= j < w.len() ==> !((#[trigger] w[j]) == '/' || w[j] == '$'),
    ensures
        tilde_sep_idx(w) == w.len(),
    decreases w.len(),
{
    if w.len() > 0 {
        let t = w.skip(1);
        assert(forall|j: int| 0 <= j < t.len() ==> (#[trigger] t[j]) == w[j + 1]);
        lemma_sep_idx_absent(t);
    }
}

fn is_sep(c: char) -> (r: bool)
    ensures
        r == (c == '/' || c == '$'),
{
    c == '/' || c == '$'
}

impl Variables {
    /// Expands a tilde word against this store and the given directory
    /// stack, top first. A word not starting with `~` comes back unchanged.
    #[verifier::loop_isolation(false)]
    pub fn tilde_expansion(&self, word: &str, dir_stack: &Vec<String>) -> (r: TildeOutcome)
        requires
            self.wf(),
        ensures
            r@ == tilde_spec(self@, word@, dir_stack.deep_view()),
            !(word@.len() > 0 && word@[0] == '~') ==> r@ == TildeView::Expanded(word@),
    {
        let len = word.unicode_len();
        if len == 0 || word.get_char(0) != '~' {
            return TildeOutcome::Expanded(word.to_owned());
        }
        let mut si: usize = 0;
        while si < len && !is_sep(word.get_char(si))
            invariant
                0 <= si <= len,
                forall|j: int| 0 <= j < si ==> !((#[trigger] word@[j]) == '/' || word@[j] == '$'),
            decreases len - si,
        {
            si += 1;
        }
        proof {
            if si < len {
                lemma_sep_idx_found(word@, si as int);
            } else {
                lemma_sep_idx_absent(word@);
            }
            assert(tilde_sep_idx(word@) == si);
        }
        let pre = word.substring_char(1, si);
        let rem = word.substring_char(si, len);
        proof {
            assert(pre@ == tilde_prefix(word@));
            assert(rem@ == tilde_rest(word@));
        }
        let plen = pre.unicode_len();
        if plen == 0 {
            match self.env_get("HOME") {
                Some(h) => TildeOutcome::Expanded(h.concat(rem)),
                None => TildeOutcome::Absent,
            }
        } else if plen == 1 && pre.get_char(0) == '+' {
            proof {
                assert(pre@ =~= seq!['+']);
            }
            match self.env_get("PWD") {
                Some(p) => TildeOutcome::Expanded(p.concat(rem)),
                None => {
                    let mut q = String::new();
                    push_char(&mut q, '?');
                    proof {
                        assert(q@ =~= seq!['?']);
                    }
                    TildeOutcome::Expanded(q.concat(rem))
                },
            }
        } else if plen == 1 && pre.get_char(0) == '-' {
            proof {
                assert(pre@ =~= seq!['-']);
            }
            match self.oldpwd() {
                Some(o) => TildeOutcome::Expanded(o.concat(rem)),
                None => TildeOutcome::Absent,
            }
        } else {
            proof {
                assert(pre@ != seq!['+'] && pre@ != seq!['-']) by {
                    if plen == 1 {
                        assert(pre@[0] != '+' && pre@[0] != '-');
                    }
                }
            }
            let c0 = pre.get_char(0);
            let neg = c0 == '-';
            let numtext: &str = if c0 == '+' || c0 == '-' {
                pre.substring_char(1, plen)
            } else {
                pre
            };
            proof {
                if c0 == '+' || c0 == '-' {
                    assert(numtext@ == pre@.skip(1));
                }
            }
            match parse_dec_usize(numtext) {
                Some(idx) => {
                    if neg {
                        if idx < dir_stack.len() {
                            TildeOutcome::Expanded(dir_stack[idx].clone().concat(rem))
                        } else {
                            TildeOutcome::Absent
                        }
                    } else {
                        if idx < dir_stack.len() {
                            let k = dir_stack.len() - 1 - idx;
                            TildeOutcome::Expanded(dir_stack[k].clone().concat(rem))
                        } else {
                            TildeOutcome::Absent
                        }
                    }
                },
                None => TildeOutcome::NeedsUser {
                    user: pre.to_owned(),
                    remainder: rem.to_owned(),
                },
            }
        }
    }

    /// The previous working directory, as a plain string lookup sees it.
    fn oldpwd(&self) -> (r: Option<String>)
        requires
            self.wf(),
        ensures
            r is Some <==> string_lookup(self@, "OLDPWD"@) is Some,
            r matches Some(s) ==> string_lookup(self@, "OLDPWD"@) == Some(s@),
    {
        let from_scope = self.get_ref("OLDPWD");
        match from_scope {
            Some(v) => match v {
                crate::value::VariableType::Str(s) => Some(s.clone()),
                _ => self.env_get("OLDPWD"),
            },
            None => self.env_get("OLDPWD"),
        }
    }
}

} // verus!
