use crate::engine::groups_ok;
use crate::text::substring;
use vstd::prelude::*;
use vstd::string::*;
use vstd::utf8::*;

verus! {

/// The span of group `i`, absent when `i` is past the last group or the group
/// took no part in the match.
pub open spec fn group_at(groups: Seq<Option<(usize, usize)>>, i: int) -> Option<(usize, usize)> {
    if 0 <= i < groups.len() {
        groups[i]
    } else {
        None
    }
}

/// The bytes of `text` that group `i` covers, absent as for `group_at`.
pub open spec fn group_text(text: Seq<char>, groups: Seq<Option<(usize, usize)>>, i: int) -> Option<
    Seq<u8>,
> {
    match group_at(groups, i) {
        Some(span) => Some(encode_utf8(text).subrange(span.0 as int, span.1 as int)),
        None => None,
    }
}

/// The bytes of an optional piece of text.
pub open spec fn opt_bytes(s: Option<&str>) -> Option<Seq<u8>> {
    match s {
        Some(s) => Some(s.spec_bytes()),
        None => None,
    }
}

/// The capture groups of one match: the span of the whole match at index 0,
/// then one entry per group of the pattern, in the order of their opening
/// parentheses. Offsets are bytes of the text that was searched.
pub struct Captures<'t> {
    text: &'t str,
    groups: Vec<Option<(usize, usize)>>,
}

impl<'t> View for Captures<'t> {
    type V = Seq<Option<(usize, usize)>>;

    closed spec fn view(&self) -> Seq<Option<(usize, usize)>> {
        self.groups@
    }
}

impl<'t> Captures<'t> {
    #[verifier::type_invariant]
    spec fn inv(&self) -> bool {
        groups_ok(self.text.spec_bytes(), self.groups@)
    }

    /// The text that was searched.
    pub closed spec fn source(&self) -> Seq<char> {
        self.text@
    }

    /// The groups of one search report over `text`.
    pub(crate) fn from_report(text: &'t str, groups: Vec<Option<(usize, usize)>>) -> (c: Self)
        requires
            groups_ok(text.spec_bytes(), groups@),
        ensures
            c@ == groups@,
            c.source() == text@,
    {
        Captures { text, groups }
    }

    /// The byte span of group `i`; `None` when `i` is not below `len()` or
    /// the group took no part in the match.
    pub fn pos(&self, i: usize) -> (r: Option<(usize, usize)>)
        ensures
            r == group_at(self@, i as int),
            i >= self@.len() ==> r is None,
    {
        if i < self.groups.len() {
            self.groups[i]
        } else {
            None
        }
    }

    /// The text that group `i` covers; `None` exactly when `pos(i)` is.
    pub fn at(&self, i: usize) -> (r: Option<&'t str>)
        ensures
            opt_bytes(r) == group_text(self.source(), self@, i as int),
            i >= self@.len() ==> r is None,
    {
        proof {
            use_type_invariant(self);
        }
        match self.pos(i) {
            Some(span) => {
                assert(self.groups@[i as int] is Some);
                Some(substring(self.text, span.0, span.1))
            },
            None => None,
        }
    }

    /// The number of groups, the whole match included.
    pub fn len(&self) -> (r: usize)
        ensures
            r == self@.len(),
    {
        self.groups.len()
    }

    /// Whether there are no groups at all.
    pub fn is_empty(&self) -> (r: bool)
        ensures
            r == (self@.len() == 0),
    {
        self.len() == 0
    }

    /// The texts of all groups, in order.
    pub fn iter(&'t self) -> (r: SubCaptures<'t>)
        ensures
            r.remaining() == Seq::new(self@.len(), |i: int| group_text(self.source(), self@, i)),
    {
        SubCaptures { idx: 0, caps: self }
    }

    /// The spans of all groups, in order.
    pub fn iter_pos(&'t self) -> (r: SubCapturesPos<'t>)
        ensures
            r.remaining() == self@,
    {
        SubCapturesPos { idx: 0, caps: self }
    }
}

/// The texts of the groups of one match, one after another.
pub struct SubCaptures<'t> {
    idx: usize,
    caps: &'t Captures<'t>,
}

impl<'t> SubCaptures<'t> {
    /// The texts still to come.
    pub closed spec fn remaining(&self) -> Seq<Option<Seq<u8>>> {
        let n = self.caps@.len();
        Seq::new(
            if self.idx < n { (n - self.idx) as nat } else { 0 },
            |k: int| group_text(self.caps.source(), self.caps@, self.idx + k),
        )
    }

    /// The next group's text, or `None` after the last group.
    pub fn next(&mut self) -> (r: Option<Option<&'t str>>)
        ensures
            match r {
                None => old(self).remaining().len() == 0 && final(self).remaining()
                    == old(self).remaining(),
                Some(t) => old(self).remaining().len() > 0 && opt_bytes(t) == old(
                    self,
                ).remaining()[0] && final(self).remaining() == old(self).remaining().drop_first(),
            },
    {
        if self.idx < self.caps.len() {
            let t = self.caps.at(self.idx);
            self.idx = self.idx + 1;
            proof {
                assert(final(self).remaining() =~= old(self).remaining().drop_first());
            }
            Some(t)
        } else {
            None
        }
    }

    /// All the texts still to come, in order.
    pub fn collect_vec(self) -> (r: Vec<Option<&'t str>>)
        ensures
            r@.map_values(|t: Option<&'t str>| opt_bytes(t)) == self.remaining(),
    {
        let mut it = self;
        let mut out: Vec<Option<&'t str>> = Vec::new();
        loop
            invariant
                out@.map_values(|t: Option<&'t str>| opt_bytes(t)) + it.remaining()
                    == self.remaining(),
            decreases it.remaining().len(),
        {
            let ghost before = it.remaining();
            match it.next() {
                None => {
                    assert(out@.map_values(|t: Option<&'t str>| opt_bytes(t)) =~= self.remaining());
                    return out;
                },
                Some(t) => {
                    let ghost done = out@.map_values(|t: Option<&'t str>| opt_bytes(t));
                    out.push(t);
                    assert(out@.map_values(|t: Option<&'t str>| opt_bytes(t)) =~= done.push(
                        before[0],
                    ));
                    assert(done.push(before[0]) + before.drop_first() =~= done + before);
                },
            }
        }
    }
}

/// The spans of the groups of one match, one after another.
pub struct SubCapturesPos<'t> {
    idx: usize,
    caps: &'t Captures<'t>,
}

impl<'t> SubCapturesPos<'t> {
    /// The spans still to come.
    pub closed spec fn remaining(&self) -> Seq<Option<(usize, usize)>> {
        self.caps@.subrange(
            if self.idx < self.caps@.len() { self.idx as int } else { self.caps@.len() as int },
            self.caps@.len() as int,
        )
    }

    /// The next group's span, or `None` after the last group.
    pub fn next(&mut self) -> (r: Option<Option<(usize, usize)>>)
        ensures
            match r {
                None => old(self).remaining().len() == 0 && final(self).remaining()
                    == old(self).remaining(),
                Some(p) => old(self).remaining().len() > 0 && p == old(self).remaining()[0]
                    && final(self).remaining() == old(self).remaining().drop_first(),
            },
    {
        if self.idx < self.caps.len() {
            let p = self.caps.pos(self.idx);
            self.idx = self.idx + 1;
            proof {
                assert(final(self).remaining() =~= old(self).remaining().drop_first());
            }
            Some(p)
        } else {
            None
        }
    }

    /// All the spans still to come, in order.
    pub fn collect_vec(self) -> (r: Vec<Option<(usize, usize)>>)
        ensures
            r@ == self.remaining(),
    {
        let mut it = self;
        let mut out: Vec<Option<(usize, usize)>> = Vec::new();
        loop
            invariant
                out@ + it.remaining() == self.remaining(),
            decreases it.remaining().len(),
        {
            let ghost before = it.remaining();
            match it.next() {
                None => {
                    assert(out@ =~= self.remaining());
                    return out;
                },
                Some(p) => {
                    let ghost done = out@;
                    out.push(p);
                    assert(done.push(before[0]) + before.drop_first() =~= done + before);
                },
            }
        }
    }
}

} // verus!
