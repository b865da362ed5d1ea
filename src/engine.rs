use regex::Error as EngineError;
use regex::Regex as EngineRegex;
use vstd::prelude::*;
use vstd::string::*;
use vstd::utf8::*;

verus! {

/// The compiled form of a pattern, as the matching engine keeps it.
#[verifier::external_type_specification]
#[verifier::external_body]
pub struct ExEngineRegex(EngineRegex);

/// Why the matching engine refused a pattern.
#[verifier::external_type_specification]
#[verifier::external_body]
pub struct ExEngineError(EngineError);

/// What one leftmost-first search of `pattern` over `text`, starting at byte
/// offset `from`, reports: `None` when nothing matches, otherwise the byte
/// span of every group (index 0 is the whole match; a group that took no part
/// in the match is `None`).
pub uninterp spec fn leftmost_groups(pattern: Seq<char>, text: Seq<char>, from: nat) -> Option<
    Seq<Option<(usize, usize)>>,
>;

/// A span lies within `bytes` and starts and ends on character boundaries.
pub open spec fn span_ok(bytes: Seq<u8>, span: (usize, usize)) -> bool {
    &&& span.0 <= span.1 <= bytes.len()
    &&& is_char_boundary(bytes, span.0 as int)
    &&& is_char_boundary(bytes, span.1 as int)
}

/// Every group that took part in a match has a span inside the text.
pub open spec fn groups_ok(bytes: Seq<u8>, groups: Seq<Option<(usize, usize)>>) -> bool {
    forall|i: int| 0 <= i < groups.len() && (#[trigger] groups[i]) is Some ==> span_ok(bytes, groups[i]->0)
}

/// The span of the whole match in a search report.
pub open spec fn whole_span(groups: Seq<Option<(usize, usize)>>) -> (usize, usize) {
    groups[0]->0
}

/// A search report that the engine may give for a search from `from`: group 0
/// is present and starts at or after `from`, and every span is inside the text.
pub open spec fn report_ok(bytes: Seq<u8>, from: int, groups: Seq<Option<(usize, usize)>>) -> bool {
    &&& groups.len() > 0
    &&& groups[0] is Some
    &&& from <= whole_span(groups).0
    &&& span_ok(bytes, whole_span(groups))
    &&& groups_ok(bytes, groups)
}

/// A pattern compiled by the matching engine, with the pattern it was
/// compiled from.
pub struct Regex {
    engine: EngineRegex,
    pattern: Ghost<Seq<char>>,
}

/// A pattern that the matching engine refused.
#[derive(Debug)]
pub struct Error {
    cause: EngineError,
}

/// Relies on regex::Regex::new: compiles a pattern, or says why it cannot.
#[verifier::external_body]
fn compile(pattern: &str) -> (r: Result<EngineRegex, EngineError>) {
    EngineRegex::new(pattern)
}

impl Regex {
    /// The pattern this value was compiled from.
    pub closed spec fn pattern(&self) -> Seq<char> {
        self.pattern@
    }

    /// Compiles `pattern`; on success the result matches by that pattern.
    pub fn new(pattern: &str) -> (r: Result<Regex, Error>)
        ensures
            r matches Ok(re) ==> re.pattern() == pattern@,
    {
        match compile(pattern) {
            Ok(engine) => Ok(Regex { engine, pattern: Ghost(pattern@) }),
            Err(cause) => Err(Error { cause }),
        }
    }

    /// Relies on regex::Regex::captures_at: a leftmost-first search that starts at
    /// byte offset `from` and sees the whole text as context. Its documentation
    /// gives that group 0 is present in every match, that each span has
    /// start <= end, and that every offset falls on a character boundary; the
    /// search itself only reports matches inside `from..text.len()`. What it
    /// reports depends only on the pattern (`new` sets `engine` and `pattern`
    /// together, and nothing else sets them), the text and `from`.
    #[verifier::external_body]
    pub(crate) fn search_at(&self, text: &str, from: usize) -> (r: Option<Vec<Option<(usize, usize)>>>)
        requires
            from <= text.spec_bytes().len(),
        ensures
            match r {
                None => leftmost_groups(self.pattern(), text@, from as nat) is None,
                Some(g) => leftmost_groups(self.pattern(), text@, from as nat) == Some(g@)
                    && report_ok(text.spec_bytes(), from as int, g@),
            },
    {
        self.engine.captures_at(text, from).map(
            |c| c.iter().map(|g| g.map(|m| (m.start(), m.end()))).collect(),
        )
    }
}

} // verus!
