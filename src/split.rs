use crate::engine::{Regex, whole_span};
use crate::find::{Cursor, CursorState, find_all, lemma_reports_ordered};
use crate::text::{byte_len, substring};
use vstd::prelude::*;
use vstd::string::*;
use vstd::utf8::*;

verus! {

broadcast use encode_utf8_valid_utf8;

/// One step of splitting `bytes` at the matches `ms`, with the previous piece
/// ending at `last`: the text up to the next match, or else the rest of the
/// text if any is left. Gives the piece and the matches and offset after it.
pub open spec fn split_step(bytes: Seq<u8>, ms: Seq<(usize, usize)>, last: int) -> Option<
    (Seq<u8>, Seq<(usize, usize)>, int),
> {
    if ms.len() > 0 {
        Some((bytes.subrange(last, ms[0].0 as int), ms.drop_first(), ms[0].1 as int))
    } else if last < bytes.len() {
        Some((bytes.subrange(last, bytes.len() as int), ms, bytes.len() as int))
    } else {
        None
    }
}

/// The pieces of `bytes` between the matches `ms`, from offset `last` on; a
/// remainder after the last match comes last, unless it is empty.
pub open spec fn split_pieces(bytes: Seq<u8>, ms: Seq<(usize, usize)>, last: int) -> Seq<Seq<u8>>
    decreases 2 * ms.len() + (if last < bytes.len() {
        1nat
    } else {
        0nat
    }),
{
    match split_step(bytes, ms, last) {
        None => seq![],
        Some(step) => seq![step.0] + split_pieces(bytes, step.1, step.2),
    }
}

/// At most `n` pieces: as `split_pieces`, except that the `n`-th piece is
/// the whole rest of the text from where the one before it ended.
pub open spec fn bounded_pieces(bytes: Seq<u8>, ms: Seq<(usize, usize)>, last: int, n: nat) -> Seq<
    Seq<u8>,
>
    decreases n,
{
    if n == 0 {
        seq![]
    } else if n == 1 {
        seq![bytes.subrange(last, bytes.len() as int)]
    } else {
        match split_step(bytes, ms, last) {
            None => seq![],
            Some(step) => seq![step.0] + bounded_pieces(bytes, step.1, step.2, (n - 1) as nat),
        }
    }
}

/// The pieces of `text` that lie between the matches of `pattern`.
pub open spec fn split_all(pattern: Seq<char>, text: Seq<char>) -> Seq<Seq<u8>> {
    split_pieces(encode_utf8(text), find_all(pattern, text), 0)
}

/// At most `limit` pieces of `text` between matches of `pattern`, the last of
/// them holding all the text that is left.
pub open spec fn splitn_all(pattern: Seq<char>, text: Seq<char>, limit: nat) -> Seq<Seq<u8>> {
    bounded_pieces(encode_utf8(text), find_all(pattern, text), 0, limit)
}

/// A limit of zero gives no pieces at all, whatever the text and pattern.
pub proof fn lemma_splitn_zero_is_empty(pattern: Seq<char>, text: Seq<char>)
    ensures
        splitn_all(pattern, text, 0) == Seq::<Seq<u8>>::empty(),
{
}

/// The pieces of a text between the matches of a pattern, one after another.
pub struct RegexSplits<'r, 't> {
    cursor: Cursor<'r, 't>,
    last: usize,
}

impl<'r, 't> RegexSplits<'r, 't> {
    /// The state is consistent with the text.
    pub closed spec fn wf(&self) -> bool {
        &&& self.cursor.wf()
        &&& self.last <= self.cursor.text.spec_bytes().len()
        &&& is_char_boundary(self.cursor.text.spec_bytes(), self.last as int)
        &&& self.last <= self.cursor.floor()
    }

    /// The bytes of the text being split.
    pub closed spec fn bytes(&self) -> Seq<u8> {
        self.cursor.text.spec_bytes()
    }

    /// The matches not yet split at.
    pub closed spec fn pending(&self) -> Seq<(usize, usize)> {
        self.cursor.reports().map_values(|g: Seq<Option<(usize, usize)>>| whole_span(g))
    }

    /// Where the next piece starts.
    pub closed spec fn offset(&self) -> int {
        self.last as int
    }

    /// The pieces still to come.
    pub closed spec fn remaining(&self) -> Seq<Seq<u8>> {
        split_pieces(self.bytes(), self.pending(), self.offset())
    }

    fn new(regex: &'r Regex, text: &'t str) -> (r: Self)
        ensures
            r.wf(),
            r.bytes() == text.spec_bytes(),
            r.pending() == find_all(regex.pattern(), text@),
            r.offset() == 0,
    {
        proof {
            is_char_boundary_start_end_of_seq(text.spec_bytes());
        }
        RegexSplits { cursor: Cursor::new(regex, text), last: 0 }
    }

    /// One step of `split_step` on the state.
    fn advance(&mut self) -> (r: Option<&'t str>)
        requires
            old(self).wf(),
        ensures
            final(self).wf(),
            final(self).bytes() == old(self).bytes(),
            match r {
                None => split_step(old(self).bytes(), old(self).pending(), old(self).offset())
                    is None && final(self).pending() == old(self).pending() && final(self).offset()
                    == old(self).offset(),
                Some(t) => split_step(old(self).bytes(), old(self).pending(), old(self).offset())
                    == Some((t.spec_bytes(), final(self).pending(), final(self).offset())),
            },
    {
        let text = self.cursor.text;
        let len = byte_len(text);
        proof {
            is_char_boundary_start_end_of_seq(text.spec_bytes());
            if let CursorState::Searching { pos, skip_empty } = self.cursor.state {
                lemma_reports_ordered(self.cursor.regex.pattern(), text@, pos as int, skip_empty);
            }
        }
        let ghost old_pending = self.pending();
        match self.cursor.pull() {
            None => {
                if self.last >= len {
                    None
                } else {
                    let piece = substring(text, self.last, len);
                    self.last = len;
                    Some(piece)
                }
            },
            Some(g) => {
                let (s, e) = g[0].unwrap();
                assert(old_pending[0] == (s, e));
                let piece = substring(text, self.last, s);
                self.last = e;
                proof {
                    assert(self.pending() =~= old_pending.drop_first());
                }
                Some(piece)
            },
        }
    }

    /// The next piece, or `None` once there are no more.
    pub fn next(&mut self) -> (r: Option<&'t str>)
        requires
            old(self).wf(),
        ensures
            final(self).wf(),
            match r {
                None => old(self).remaining().len() == 0 && final(self).remaining() == old(
                    self,
                ).remaining(),
                Some(t) => old(self).remaining().len() > 0 && t.spec_bytes() == old(
                    self,
                ).remaining()[0] && final(self).remaining() == old(self).remaining().drop_first(),
            },
    {
        let r = self.advance();
        proof {
            if r is Some {
                assert(old(self).remaining() == seq![r->0.spec_bytes()] + final(self).remaining());
                assert(final(self).remaining() =~= old(self).remaining().drop_first());
            }
        }
        r
    }

    /// All the pieces still to come, in order.
    pub fn collect_vec(self) -> (r: Vec<&'t str>)
        requires
            self.wf(),
        ensures
            r@.map_values(|t: &'t str| t.spec_bytes()) == self.remaining(),
    {
        let mut it = self;
        let mut out: Vec<&'t str> = Vec::new();
        loop
            invariant
                it.wf(),
                out@.map_values(|t: &'t str| t.spec_bytes()) + it.remaining() == self.remaining(),
            decreases it.remaining().len(),
        {
            let ghost before = it.remaining();
            match it.next() {
                None => {
                    assert(out@.map_values(|t: &'t str| t.spec_bytes()) =~= self.remaining());
                    return out;
                },
                Some(t) => {
                    let ghost done = out@.map_values(|t: &'t str| t.spec_bytes());
                    out.push(t);
                    assert(out@.map_values(|t: &'t str| t.spec_bytes()) =~= done.push(before[0]));
                    assert(done.push(before[0]) + before.drop_first() =~= done + before);
                },
            }
        }
    }
}

/// At most a given number of pieces of a text between the matches of a
/// pattern; the last piece holds all the text that is left.
pub struct RegexSplitsN<'r, 't> {
    splits: RegexSplits<'r, 't>,
    n: usize,
}

impl<'r, 't> RegexSplitsN<'r, 't> {
    /// The state is consistent with the text.
    pub closed spec fn wf(&self) -> bool {
        self.splits.wf()
    }

    /// How many pieces may still come.
    pub closed spec fn limit(&self) -> nat {
        self.n as nat
    }

    /// The pieces that would come under a limit of `k` from here on.
    pub closed spec fn pieces_with_limit(&self, k: nat) -> Seq<Seq<u8>> {
        bounded_pieces(self.splits.bytes(), self.splits.pending(), self.splits.offset(), k)
    }

    /// The pieces still to come: those under the limit that is left.
    pub open spec fn remaining(&self) -> Seq<Seq<u8>> {
        self.pieces_with_limit(self.limit())
    }

    /// The next piece, or `None` once there are no more. Each call, a `None`
    /// too, uses up one unit of the limit while any is left; the last unit
    /// gives the whole rest of the text.
    pub fn next(&mut self) -> (r: Option<&'t str>)
        requires
            old(self).wf(),
        ensures
            final(self).wf(),
            match r {
                None => old(self).remaining().len() == 0 && final(self).limit() == (if old(
                    self,
                ).limit() == 0 {
                    0
                } else {
                    old(self).limit() - 1
                }) && forall|k: nat| #[trigger]
                    final(self).pieces_with_limit(k) == old(self).pieces_with_limit(k),
                Some(t) => old(self).remaining().len() > 0 && t.spec_bytes() == old(
                    self,
                ).remaining()[0] && final(self).remaining() == old(self).remaining().drop_first()
                    && final(self).limit() == old(self).limit() - 1 && (old(self).limit() >= 2
                    ==> forall|k: nat|
                    k >= 1 ==> #[trigger] final(self).pieces_with_limit(k) == old(
                        self,
                    ).pieces_with_limit(k + 1).drop_first()),
            },
    {
        if self.n == 0 {
            return None;
        }
        self.n = self.n - 1;
        if self.n == 0 {
            let text = self.splits.cursor.text;
            let len = byte_len(text);
            proof {
                is_char_boundary_start_end_of_seq(text.spec_bytes());
                assert(final(self).remaining() =~= old(self).remaining().drop_first());
            }
            Some(substring(text, self.splits.last, len))
        } else {
            let r = self.splits.advance();
            proof {
                if r is Some {
                    assert(final(self).remaining() =~= old(self).remaining().drop_first());
                    assert forall|k: nat| k >= 1 implies #[trigger] final(self).pieces_with_limit(k)
                        == old(self).pieces_with_limit(k + 1).drop_first() by {
                        assert(final(self).pieces_with_limit(k) =~= old(self).pieces_with_limit(
                            k + 1,
                        ).drop_first());
                    }
                }
            }
            r
        }
    }

    /// All the pieces still to come, in order.
    pub fn collect_vec(self) -> (r: Vec<&'t str>)
        requires
            self.wf(),
        ensures
            r@.map_values(|t: &'t str| t.spec_bytes()) == self.remaining(),
    {
        let mut it = self;
        let mut out: Vec<&'t str> = Vec::new();
        loop
            invariant
                it.wf(),
                out@.map_values(|t: &'t str| t.spec_bytes()) + it.remaining() == self.remaining(),
            decreases it.remaining().len(),
        {
            let ghost before = it.remaining();
            match it.next() {
                None => {
                    assert(out@.map_values(|t: &'t str| t.spec_bytes()) =~= self.remaining());
                    return out;
                },
                Some(t) => {
                    let ghost done = out@.map_values(|t: &'t str| t.spec_bytes());
                    out.push(t);
                    assert(out@.map_values(|t: &'t str| t.spec_bytes()) =~= done.push(before[0]));
                    assert(done.push(before[0]) + before.drop_first() =~= done + before);
                },
            }
        }
    }
}

impl Regex {
    /// The pieces of `text` between the non-overlapping matches, left to
    /// right; text after the last match comes last, unless it is empty.
    pub fn split<'r, 't>(&'r self, text: &'t str) -> (r: RegexSplits<'r, 't>)
        ensures
            r.wf(),
            r.remaining() == split_all(self.pattern(), text@),
    {
        RegexSplits::new(self, text)
    }

    /// At most `limit` pieces of `text` between the non-overlapping matches;
    /// the last piece holds all the text that is left. A limit of zero gives
    /// no pieces.
    pub fn splitn<'r, 't>(&'r self, text: &'t str, limit: usize) -> (r: RegexSplitsN<'r, 't>)
        ensures
            r.wf(),
            r.remaining() == splitn_all(self.pattern(), text@, limit as nat),
    {
        RegexSplitsN { splits: RegexSplits::new(self, text), n: limit }
    }
}

} // verus!
