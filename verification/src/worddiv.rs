//! The word divider: a small scanner turning a line buffer into word spans
//! for the editor's word-motion commands. A backslash escapes the next
//! character, which then belongs to the current word; an unescaped space
//! closes a word.

use vstd::prelude::*;

verus! {

/// The scanner state: the buffer as `(index, character)` pairs, the reading
/// position, how many characters were consumed, and the start of the open
/// word if one is open.
pub struct WordDivide {
    pub items: Vec<(usize, char)>,
    pub pos: usize,
    pub count: usize,
    pub word_start: Option<usize>,
}

/// The spans the scanner yields from a given state. At the end of the input
/// an open word is flushed. A backslash consumes the following character:
/// an escaped space neither closes nor opens a word; any other escaped
/// character behaves like itself, a word opened on it starting at the
/// backslash's index.
pub open spec fn divide_spans(
    items: Seq<(usize, char)>,
    pos: int,
    ws: Option<usize>,
) -> Seq<(usize, usize)>
    decreases items.len() - pos,
{
    if pos < 0 || pos >= items.len() {
        match ws {
            Some(st) => seq![(st, items.len() as usize)],
            None => Seq::empty(),
        }
    } else {
        let idx = items[pos].0;
        let c = items[pos].1;
        if c == '\\' {
            if pos + 1 < items.len() {
                let c2 = items[pos + 1].1;
                match ws {
                    Some(_) => divide_spans(items, pos + 2, ws),
                    None => divide_spans(
                        items,
                        pos + 2,
                        if c2 != ' ' {
                            Some(idx)
                        } else {
                            None
                        },
                    ),
                }
            } else {
                divide_spans(items, pos + 1, ws)
            }
        } else {
            match ws {
                Some(st) => if c == ' ' {
                    seq![(st, idx)] + divide_spans(items, pos + 1, None)
                } else {
                    divide_spans(items, pos + 1, ws)
                },
                None => divide_spans(
                    items,
                    pos + 1,
                    if c != ' ' {
                        Some(idx)
                    } else {
                        None
                    },
                ),
            }
        }
    }
}

/// One boundary step: what the scanner yields after reading character `c`
/// at index `idx`, `escaped` when a backslash preceded it.
pub open spec fn boundary_spans(
    items: Seq<(usize, char)>,
    pos: int,
    ws: Option<usize>,
    c: char,
    idx: usize,
    escaped: bool,
) -> Seq<(usize, usize)> {
    match ws {
        Some(st) => if c == ' ' && !escaped {
            seq![(st, idx)] + divide_spans(items, pos, None)
        } else {
            divide_spans(items, pos, ws)
        },
        None => divide_spans(
            items,
            pos,
            if c != ' ' {
                Some(idx)
            } else {
                None
            },
        ),
    }
}

/// The buffer's characters paired with their indices.
pub open spec fn index_pairs(s: Seq<char>) -> Seq<(usize, char)> {
    Seq::new(s.len(), |i: int| (i as usize, s[i]))
}

impl WordDivide {
    /// The position never passes the end, the consumed count follows it,
    /// and the buffer is short enough for the count to move freely.
    pub open spec fn wf(&self) -> bool {
        self.pos <= self.items@.len() && self.count == self.pos && self.items@.len() < usize::MAX
    }

    /// The spans still to come from this state.
    pub open spec fn spans(&self) -> Seq<(usize, usize)> {
        divide_spans(self.items@, self.pos as int, self.word_start)
    }

    /// How much work is left: drives the caller's iteration.
    pub open spec fn remaining(&self) -> int {
        2 * (self.items@.len() - self.pos) + if self.word_start is Some {
            1int
        } else {
            0int
        }
    }

    /// A scanner at the start of the given buffer.
    pub fn new(items: Vec<(usize, char)>) -> (r: WordDivide)
        requires
            items@.len() < usize::MAX,
        ensures
            r.wf(),
            r.items@ == items@,
            r.spans() == divide_spans(items@, 0, None),
    {
        WordDivide { items, pos: 0, count: 0, word_start: None }
    }

    /// Applies one boundary decision for character `c` at `index`.
    pub fn check_boundary(&mut self, c: char, index: usize, escaped: bool) -> (r: Option<
        (usize, usize),
    >)
        requires
            old(self).wf(),
        ensures
            final(self).wf(),
            final(self).items@ == old(self).items@,
            match r {
                Some(sp) => boundary_spans(
                    old(self).items@,
                    old(self).pos as int,
                    old(self).word_start,
                    c,
                    index,
                    escaped,
                ) == seq![sp] + final(self).spans() && final(self).remaining() <= 2 * (old(self).items@.len() - old(self).pos),
                None => boundary_spans(
                    old(self).items@,
                    old(self).pos as int,
                    old(self).word_start,
                    c,
                    index,
                    escaped,
                ) == Seq::<(usize, usize)>::empty() && final(self).remaining() <= 2 * (old(self).items@.len() - old(self).pos) + 1 && final(self).spans() == Seq::<
                    (usize, usize),
                >::empty(),
            },
        decreases old(self).items@.len() - old(self).pos, 1nat,
    {
        match self.word_start {
            Some(start) => {
                if c == ' ' && !escaped {
                    self.word_start = None;
                    Some((start, index))
                } else {
                    self.next()
                }
            },
            None => {
                if c != ' ' {
                    self.word_start = Some(index);
                }
                self.next()
            },
        }
    }

    /// Yields the next word span, or nothing once the buffer is exhausted
    /// with no word open.
    pub fn next(&mut self) -> (r: Option<(usize, usize)>)
        requires
            old(self).wf(),
        ensures
            final(self).wf(),
            final(self).items@ == old(self).items@,
            match r {
                Some(sp) => old(self).spans() == seq![sp] + final(self).spans() && final(self).remaining() < old(self).remaining(),
                None => old(self).spans() == Seq::<(usize, usize)>::empty() && final(self).remaining() <= old(self).remaining() && final(self).spans() == Seq::<
                    (usize, usize),
                >::empty(),
            },
        decreases old(self).items@.len() - old(self).pos, 0nat,
    {
        if self.pos < self.items.len() {
            self.count += 1;
            let pair = self.items[self.pos];
            self.pos += 1;
            if pair.1 == '\\' {
                if self.pos < self.items.len() {
                    let next_pair = self.items[self.pos];
                    self.pos += 1;
                    self.count += 1;
                    self.check_boundary(next_pair.1, pair.0, true)
                } else {
                    self.next()
                }
            } else {
                self.check_boundary(pair.1, pair.0, false)
            }
        } else {
            match self.word_start {
                Some(start) => {
                    self.word_start = None;
                    Some((start, self.count))
                },
                None => None,
            }
        }
    }
}

/// Divides a buffer into word spans.
#[verifier::loop_isolation(false)]
pub fn word_divide(buf: &Vec<char>) -> (r: Vec<(usize, usize)>)
    requires
        buf@.len() < usize::MAX,
    ensures
        r@ == divide_spans(index_pairs(buf@), 0, None),
{
    let mut items: Vec<(usize, char)> = Vec::new();
    let mut i: usize = 0;
    while i < buf.len()
        invariant
            0 <= i <= buf@.len(),
            items@.len() == i,
            forall|j: int| 0 <= j < i ==> (#[trigger] items@[j]) == (j as usize, buf@[j]),
        decreases buf@.len() - i,
    {
        items.push((i, buf[i]));
        i += 1;
    }
    proof {
        assert(items@ =~= index_pairs(buf@));
    }
    let mut wd = WordDivide::new(items);
    let mut out: Vec<(usize, usize)> = Vec::new();
    let mut done = false;
    while !done
        invariant
            wd.wf(),
            wd.items@ == index_pairs(buf@),
            out@ + wd.spans() == divide_spans(index_pairs(buf@), 0, None),
            done ==> wd.spans() == Seq::<(usize, usize)>::empty(),
        decreases
                wd.remaining() + 1,
                (if done {
                    0int
                } else {
                    1int
                }),
    {
        let ghost pre_out = out@;
        let ghost pre_spans = wd.spans();
        match wd.next() {
            Some(sp) => {
                proof {
                    assert(pre_spans == seq![sp] + wd.spans());
                }
                out.push(sp);
                proof {
                    assert(out@ =~= pre_out.push(sp));
                    assert(out@ + wd.spans() =~= pre_out + pre_spans);
                }
            },
            None => {
                done = true;
                proof {
                    assert(out@ + wd.spans() =~= pre_out + pre_spans);
                }
            },
        }
    }
    proof {
        assert(out@ =~= divide_spans(index_pairs(buf@), 0, None));
    }
    out
}

} // verus!
