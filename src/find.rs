use crate::captures::Captures;
use crate::engine::{Regex, groups_ok, leftmost_groups, report_ok, span_ok, whole_span};
use crate::text::{byte_len, char_width, char_width_at, lemma_char_fits};
use vstd::prelude::*;
use vstd::string::*;
use vstd::utf8::*;

verus! {

broadcast use encode_utf8_valid_utf8;

/// What a search from byte offset `from` reports, read only where it keeps the
/// guarantees that the engine gives of every report (see `report_ok`).
pub open spec fn report_from(pattern: Seq<char>, text: Seq<char>, from: int) -> Option<
    Seq<Option<(usize, usize)>>,
> {
    if from < 0 {
        None
    } else {
        match leftmost_groups(pattern, text, from as nat) {
            Some(g) => if report_ok(encode_utf8(text), from, g) {
                Some(g)
            } else {
                None
            },
            None => None,
        }
    }
}

/// How many byte offsets a cursor at `pos` may still search from.
pub open spec fn steps_left(text: Seq<char>, pos: int) -> nat {
    if pos <= encode_utf8(text).len() + 1 {
        (encode_utf8(text).len() + 1 - pos) as nat
    } else {
        0
    }
}

/// Where a cursor goes once a search has found the whole match `m`, and the
/// flag it then holds: past an empty match by one character, with the flag
/// clear; to the end of a non-empty match, with the flag set.
pub open spec fn position_after(bytes: Seq<u8>, m: (usize, usize)) -> (int, bool) {
    if m.0 == m.1 {
        (m.1 + char_width_at(bytes, m.1 as int), false)
    } else {
        (m.1 as int, true)
    }
}

/// Whether a match found with the flag `skip_empty` is yielded: every match
/// but an empty one found right after a non-empty one.
pub open spec fn is_yielded(m: (usize, usize), skip_empty: bool) -> bool {
    m.0 != m.1 || !skip_empty
}

/// The reports, in order, of the matches that a cursor yields from byte offset
/// `pos` on. `skip_empty` says that the previous match was not empty, so that
/// an empty match found right where it ended is passed over. Past the end of
/// the text the cursor stops.
pub open spec fn reports_from(pattern: Seq<char>, text: Seq<char>, pos: int, skip_empty: bool) -> Seq<
    Seq<Option<(usize, usize)>>,
>
    decreases steps_left(text, pos),
{
    if pos < 0 || pos > encode_utf8(text).len() {
        seq![]
    } else {
        match report_from(pattern, text, pos) {
            None => seq![],
            Some(g) => {
                let m = whole_span(g);
                let next = position_after(encode_utf8(text), m);
                if is_yielded(m, skip_empty) {
                    seq![g] + reports_from(pattern, text, next.0, next.1)
                } else {
                    reports_from(pattern, text, next.0, next.1)
                }
            },
        }
    }
}

/// The non-overlapping matches of `pattern` in `text`, left to right, as
/// byte spans.
pub open spec fn find_all(pattern: Seq<char>, text: Seq<char>) -> Seq<(usize, usize)> {
    reports_from(pattern, text, 0, false).map_values(|g: Seq<Option<(usize, usize)>>| whole_span(g))
}

/// The capture groups of each non-overlapping match of `pattern` in `text`.
pub open spec fn captures_all(pattern: Seq<char>, text: Seq<char>) -> Seq<
    Seq<Option<(usize, usize)>>,
> {
    reports_from(pattern, text, 0, false)
}

/// Every report that a cursor yields from `pos` on is well formed, starts at
/// or after `pos`, and starts at or after the end of the report before it.
pub proof fn lemma_reports_ordered(pattern: Seq<char>, text: Seq<char>, pos: int, skip_empty: bool)
    ensures
        ({
            let rs = reports_from(pattern, text, pos, skip_empty);
            &&& forall|k: int|
                0 <= k < rs.len() ==> pos <= whole_span(#[trigger] rs[k]).0 && groups_ok(
                    encode_utf8(text),
                    rs[k],
                ) && rs[k].len() > 0 && rs[k][0] is Some && span_ok(
                    encode_utf8(text),
                    whole_span(rs[k]),
                )
            &&& forall|k: int|
                0 <= k < rs.len() - 1 ==> whole_span(#[trigger] rs[k]).1 <= whole_span(
                    rs[k + 1],
                ).0
        }),
    decreases steps_left(text, pos),
{
    let bytes = encode_utf8(text);
    if pos < 0 || pos > bytes.len() {
    } else {
        match report_from(pattern, text, pos) {
            None => {},
            Some(g) => {
                let next = position_after(bytes, whole_span(g));
                lemma_reports_ordered(pattern, text, next.0, next.1);
            },
        }
    }
}

/// Where a cursor stands: searching from a byte offset (with the flag that
/// passes over an empty match right after a non-empty one), or exhausted.
pub enum CursorState {
    Searching { pos: usize, skip_empty: bool },
    Exhausted,
}

impl CursorState {
    /// The position and flag this state stands for in a text of `len` bytes;
    /// an exhausted cursor stands past the end.
    pub open spec fn position(&self, len: nat) -> (int, bool) {
        match *self {
            CursorState::Searching { pos, skip_empty } => (pos as int, skip_empty),
            CursorState::Exhausted => (len + 1int, false),
        }
    }

    /// The state stands inside a text of `len` bytes, or is exhausted.
    pub open spec fn within(&self, len: nat) -> bool {
        self matches CursorState::Searching { pos, .. } ==> pos <= len
    }

    /// What follows a search, made with the flag `skip_empty`, that found the
    /// whole match `m` in `text`: whether `m` is yielded, and the next state.
    pub fn after_match(text: &str, m: (usize, usize), skip_empty: bool) -> (r: (bool, CursorState))
        requires
            span_ok(text.spec_bytes(), m),
        ensures
            r.0 == is_yielded(m, skip_empty),
            r.1.position(text.spec_bytes().len()) == position_after(text.spec_bytes(), m),
            r.1.within(text.spec_bytes().len()),
    {
        let (s, e) = m;
        if s == e {
            let w = char_width(text, e);
            let next = if e < byte_len(text) {
                proof {
                    lemma_char_fits(text, e as int);
                }
                CursorState::Searching { pos: e + w, skip_empty: false }
            } else {
                CursorState::Exhausted
            };
            (!skip_empty, next)
        } else {
            (true, CursorState::Searching { pos: e, skip_empty: true })
        }
    }
}

/// The state that search-driven iteration over one text keeps.
pub(crate) struct Cursor<'r, 't> {
    pub(crate) regex: &'r Regex,
    pub(crate) text: &'t str,
    pub(crate) state: CursorState,
}

impl<'r, 't> Cursor<'r, 't> {
    pub(crate) open spec fn wf(&self) -> bool {
        self.state.within(self.text.spec_bytes().len())
    }

    pub(crate) open spec fn reports(&self) -> Seq<Seq<Option<(usize, usize)>>> {
        let p = self.state.position(self.text.spec_bytes().len());
        reports_from(self.regex.pattern(), self.text@, p.0, p.1)
    }

    /// Where the next search starts; past the end once exhausted.
    pub(crate) open spec fn floor(&self) -> int {
        self.state.position(self.text.spec_bytes().len()).0
    }

    pub(crate) fn new(regex: &'r Regex, text: &'t str) -> (c: Self)
        ensures
            c.wf(),
            c.regex == regex,
            c.text == text,
            c.reports() == reports_from(regex.pattern(), text@, 0, false),
    {
        Cursor { regex, text, state: CursorState::Searching { pos: 0, skip_empty: false } }
    }

    /// Searches on until a match is to be yielded, and returns its report.
    pub(crate) fn pull(&mut self) -> (r: Option<Vec<Option<(usize, usize)>>>)
        requires
            old(self).wf(),
        ensures
            final(self).wf(),
            final(self).regex == old(self).regex,
            final(self).text == old(self).text,
            match r {
                None => old(self).reports().len() == 0 && final(self).reports() == old(
                    self,
                ).reports() && final(self).state is Exhausted,
                Some(g) => old(self).reports().len() > 0 && g@ == old(self).reports()[0]
                    && report_ok(old(self).text.spec_bytes(), 0, g@)
                    && final(self).reports() == old(self).reports().drop_first()
                    && whole_span(g@).1 <= final(self).floor(),
            },
    {
        let ghost start = self.reports();
        loop
            invariant
                self.wf(),
                self.regex == old(self).regex,
                self.text == old(self).text,
                self.reports() == start,
                start == old(self).reports(),
            decreases
                match self.state {
                    CursorState::Searching { skip_empty: true, .. } => 1int,
                    _ => 0int,
                },
        {
            match self.state {
                CursorState::Exhausted => {
                    return None;
                },
                CursorState::Searching { pos, skip_empty } => {
                    let found = self.regex.search_at(self.text, pos);
                    match found {
                        None => {
                            self.state = CursorState::Exhausted;
                            return None;
                        },
                        Some(g) => {
                            proof {
                                assert(report_from(self.regex.pattern(), self.text@, pos as int)
                                    == Some(g@));
                            }
                            let m = g[0].unwrap();
                            let (yielded, next) = CursorState::after_match(self.text, m, skip_empty);
                            self.state = next;
                            if yielded {
                                proof {
                                    assert(self.reports() =~= start.drop_first());
                                }
                                return Some(g);
                            }
                        },
                    }
                },
            }
        }
    }
}


/// The non-overlapping matches of a pattern in a text, one after another, as
/// byte spans.
pub struct FindMatches<'r, 't> {
    cursor: Cursor<'r, 't>,
}

impl<'r, 't> FindMatches<'r, 't> {
    /// The cursor's state is consistent with its text.
    pub closed spec fn wf(&self) -> bool {
        self.cursor.wf()
    }

    /// The matches still to come.
    pub closed spec fn remaining(&self) -> Seq<(usize, usize)> {
        self.cursor.reports().map_values(|g: Seq<Option<(usize, usize)>>| whole_span(g))
    }

    /// The next match, or `None` once there are no more.
    pub fn next(&mut self) -> (r: Option<(usize, usize)>)
        requires
            old(self).wf(),
        ensures
            final(self).wf(),
            match r {
                None => old(self).remaining().len() == 0 && final(self).remaining() == old(
                    self,
                ).remaining(),
                Some(m) => old(self).remaining().len() > 0 && m == old(self).remaining()[0]
                    && final(self).remaining() == old(self).remaining().drop_first(),
            },
    {
        match self.cursor.pull() {
            None => None,
            Some(g) => {
                proof {
                    assert(final(self).remaining() =~= old(self).remaining().drop_first());
                }
                Some(g[0].unwrap())
            },
        }
    }

    /// All the matches still to come, in order.
    pub fn collect_vec(self) -> (r: Vec<(usize, usize)>)
        requires
            self.wf(),
        ensures
            r@ == self.remaining(),
    {
        let mut it = self;
        let mut out: Vec<(usize, usize)> = Vec::new();
        loop
            invariant
                it.wf(),
                out@ + it.remaining() == self.remaining(),
            decreases it.remaining().len(),
        {
            let ghost before = it.remaining();
            match it.next() {
                None => {
                    assert(out@ =~= self.remaining());
                    return out;
                },
                Some(m) => {
                    let ghost done = out@;
                    out.push(m);
                    assert(done.push(before[0]) + before.drop_first() =~= done + before);
                },
            }
        }
    }
}

/// The capture groups of each non-overlapping match of a pattern in a text,
/// one match after another.
pub struct FindCaptures<'r, 't> {
    cursor: Cursor<'r, 't>,
}

impl<'r, 't> FindCaptures<'r, 't> {
    /// The cursor's state is consistent with its text.
    pub closed spec fn wf(&self) -> bool {
        self.cursor.wf()
    }

    /// The text being searched.
    pub closed spec fn source(&self) -> Seq<char> {
        self.cursor.text@
    }

    /// The groups of the matches still to come.
    pub closed spec fn remaining(&self) -> Seq<Seq<Option<(usize, usize)>>> {
        self.cursor.reports()
    }

    /// The groups of the next match, or `None` once there are no more.
    pub fn next(&mut self) -> (r: Option<Captures<'t>>)
        requires
            old(self).wf(),
        ensures
            final(self).wf(),
            final(self).source() == old(self).source(),
            match r {
                None => old(self).remaining().len() == 0 && final(self).remaining() == old(
                    self,
                ).remaining(),
                Some(c) => old(self).remaining().len() > 0 && c@ == old(self).remaining()[0]
                    && c.source() == old(self).source() && final(self).remaining() == old(
                    self,
                ).remaining().drop_first(),
            },
    {
        match self.cursor.pull() {
            None => None,
            Some(g) => Some(Captures::from_report(self.cursor.text, g)),
        }
    }

    /// The groups of all the matches still to come, in order.
    pub fn collect_vec(self) -> (r: Vec<Captures<'t>>)
        requires
            self.wf(),
        ensures
            r@.len() == self.remaining().len(),
            forall|i: int|
                0 <= i < r@.len() ==> (#[trigger] r@[i])@ == self.remaining()[i] && r@[i].source()
                    == self.source(),
    {
        let mut it = self;
        let mut out: Vec<Captures<'t>> = Vec::new();
        loop
            invariant
                it.wf(),
                it.source() == self.source(),
                out@.len() + it.remaining().len() == self.remaining().len(),
                forall|i: int|
                    0 <= i < out@.len() ==> (#[trigger] out@[i])@ == self.remaining()[i]
                        && out@[i].source() == self.source(),
                forall|i: int|
                    0 <= i < it.remaining().len() ==> #[trigger] it.remaining()[i]
                        == self.remaining()[out@.len() + i],
            decreases it.remaining().len(),
        {
            let ghost before = it.remaining();
            match it.next() {
                None => {
                    return out;
                },
                Some(c) => {
                    out.push(c);
                    assert(forall|i: int|
                        0 <= i < it.remaining().len() ==> #[trigger] it.remaining()[i]
                            == before[i + 1]);
                },
            }
        }
    }
}

/// Matches come left to right without overlap: each match spans
/// `start <= end` inside the text, and each starts at or after the end of the
/// one before it, so that starts never decrease.
pub proof fn lemma_find_all_ordered(pattern: Seq<char>, text: Seq<char>)
    ensures
        forall|k: int|
            0 <= k < find_all(pattern, text).len() ==> (#[trigger] find_all(pattern, text)[k]).0
                <= find_all(pattern, text)[k].1 <= encode_utf8(text).len(),
        forall|k: int|
            0 <= k < find_all(pattern, text).len() - 1 ==> (#[trigger] find_all(pattern, text)[k]).1
                <= find_all(pattern, text)[k + 1].0 && find_all(pattern, text)[k].0 <= find_all(
                pattern,
                text,
            )[k + 1].0,
{
    lemma_reports_ordered(pattern, text, 0, false);
    let rs = reports_from(pattern, text, 0, false);
    assert forall|k: int| 0 <= k < find_all(pattern, text).len() implies (#[trigger] find_all(
        pattern,
        text,
    )[k]).0 <= find_all(pattern, text)[k].1 <= encode_utf8(text).len() by {
        assert(find_all(pattern, text)[k] == whole_span(rs[k]));
    }
    assert forall|k: int| 0 <= k < find_all(pattern, text).len() - 1 implies (#[trigger] find_all(
        pattern,
        text,
    )[k]).1 <= find_all(pattern, text)[k + 1].0 && find_all(pattern, text)[k].0 <= find_all(
        pattern,
        text,
    )[k + 1].0 by {
        assert(find_all(pattern, text)[k] == whole_span(rs[k]));
        assert(find_all(pattern, text)[k + 1] == whole_span(rs[k + 1]));
    }
}

impl Regex {
    /// The capture groups of the leftmost-first match in `text`, or `None`
    /// when the pattern matches nowhere in it.
    pub fn captures<'t>(&self, text: &'t str) -> (r: Option<Captures<'t>>)
        ensures
            match r {
                None => leftmost_groups(self.pattern(), text@, 0) is None,
                Some(c) => leftmost_groups(self.pattern(), text@, 0) == Some(c@) && c.source()
                    == text@ && report_ok(text.spec_bytes(), 0, c@),
            },
    {
        match self.search_at(text, 0) {
            None => None,
            Some(g) => Some(Captures::from_report(text, g)),
        }
    }

    /// The non-overlapping matches in `text`, left to right, as byte spans.
    pub fn find_iter<'r, 't>(&'r self, text: &'t str) -> (r: FindMatches<'r, 't>)
        ensures
            r.wf(),
            r.remaining() == find_all(self.pattern(), text@),
    {
        FindMatches { cursor: Cursor::new(self, text) }
    }

    /// The capture groups of each non-overlapping match in `text`, left to
    /// right.
    pub fn captures_iter<'r, 't>(&'r self, text: &'t str) -> (r: FindCaptures<'r, 't>)
        ensures
            r.wf(),
            r.source() == text@,
            r.remaining() == captures_all(self.pattern(), text@),
    {
        FindCaptures { cursor: Cursor::new(self, text) }
    }
}

} // verus!
