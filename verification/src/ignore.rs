//! Ignore and defer rules: lists of glob patterns matched against paths.

use vstd::prelude::*;
use vstd::string::*;
use crate::error::{ErrorView, StowError};
use crate::path_utils::{PathView, StowPath};

verus! {

/// The compiled pattern type of the `glob` crate, carried as an opaque
/// value.
#[verifier::external_type_specification]
#[verifier::external_body]
pub struct ExPattern(glob::Pattern);

/// What `glob::Pattern::new` makes of a pattern text: `None` where the text
/// compiles, else the words of the syntax error.
pub uninterp spec fn glob_error(pattern: Seq<char>) -> Option<Seq<char>>;

/// The text that a compiled pattern was compiled from, as
/// `glob::Pattern::as_str` gives it.
pub uninterp spec fn pattern_text(pattern: glob::Pattern) -> Seq<char>;

/// Whether the pattern compiled from `pattern` matches `text` under the
/// default match options of `glob::Pattern::matches`.
pub uninterp spec fn glob_matches(pattern: Seq<char>, text: Seq<char>) -> bool;

/// Calls `glob::Pattern::new`. The contract claims that success, and the
/// words of the error otherwise, depend on the pattern text alone, and that
/// the compiled pattern keeps the text it was compiled from.
#[verifier::external_body]
fn compile_pattern(pattern: &str) -> (r: Result<glob::Pattern, String>)
    ensures
        r matches Ok(p) ==> glob_error(pattern@) is None && pattern_text(p) == pattern@,
        r matches Err(m) ==> glob_error(pattern@) == Some(m@),
{
    glob::Pattern::new(pattern).map_err(|e| format!("{}", e))
}

/// Calls `glob::Pattern::matches`. The contract claims that the answer
/// depends on the pattern's text and the matched text alone.
#[verifier::external_body]
fn pattern_matches(pattern: &glob::Pattern, text: &str) -> (b: bool)
    ensures
        b == glob_matches(pattern_text(*pattern), text@),
{
    pattern.matches(text)
}

/// Whether one pattern matches a path: its text, its last name, or any one
/// of its components.
pub open spec fn pattern_hits(pattern: Seq<char>, path: PathView) -> bool {
    ||| glob_matches(pattern, path.text())
    ||| (path.file_name() matches Some(name) && glob_matches(pattern, name))
    ||| exists|j: int|
        0 <= j < path.components().len() && glob_matches(pattern, #[trigger] path.components()[j])
}

/// Whether any of the patterns matches a path.
pub open spec fn any_pattern_hits(patterns: Seq<Seq<char>>, path: PathView) -> bool {
    exists|i: int| 0 <= i < patterns.len() && pattern_hits(#[trigger] patterns[i], path)
}

/// The index of the first text that does not compile.
pub open spec fn first_bad(texts: Seq<Seq<char>>) -> Option<int>
    decreases texts.len(),
{
    if texts.len() == 0 {
        None
    } else {
        match first_bad(texts.drop_last()) {
            Some(i) => Some(i),
            None => if glob_error(texts.last()) is Some {
                Some(texts.len() - 1)
            } else {
                None
            },
        }
    }
}

/// The error for a pattern text that does not compile.
pub open spec fn bad_pattern_error(text: Seq<char>) -> ErrorView {
    ErrorView::PatternError("Invalid pattern '"@ + text + "': "@ + glob_error(text).unwrap())
}

/// The texts of a list of strings.
pub open spec fn texts_of(strings: Seq<String>) -> Seq<Seq<char>> {
    strings.map_values(|s: String| s@)
}

/// A list of compiled patterns.
#[derive(Debug)]
pub struct PatternMatcher {
    patterns: Vec<glob::Pattern>,
}

impl View for PatternMatcher {
    type V = Seq<Seq<char>>;

    closed spec fn view(&self) -> Seq<Seq<char>> {
        self.patterns@.map_values(|p: glob::Pattern| pattern_text(p))
    }
}

impl PatternMatcher {
    /// Compiles the patterns. The first that does not compile is reported.
    pub fn new(pattern_strings: &[String]) -> (r: Result<Self, StowError>)
        ensures
            match first_bad(texts_of(pattern_strings@)) {
                None => r matches Ok(m) && m@ == texts_of(pattern_strings@),
                Some(i) => r matches Err(e) && e@ == bad_pattern_error(
                    texts_of(pattern_strings@)[i],
                ),
            },
    {
        let mut patterns: Vec<glob::Pattern> = Vec::new();
        let ghost texts = texts_of(pattern_strings@);
        let mut i: usize = 0;
        assert(texts.take(0) =~= Seq::empty());
        while i < pattern_strings.len()
            invariant
                i <= pattern_strings.len(),
                texts == texts_of(pattern_strings@),
                first_bad(texts.take(i as int)) is None,
                patterns@.map_values(|p: glob::Pattern| pattern_text(p)) == texts.take(i as int),
            decreases pattern_strings.len() - i,
        {
            let ghost before = patterns@.map_values(|p: glob::Pattern| pattern_text(p));
            proof {
                assert(texts.take(i + 1).drop_last() =~= texts.take(i as int));
                assert(texts.take(i + 1).last() == pattern_strings@[i as int]@);
            }
            let text = &pattern_strings[i];
            match compile_pattern(text.as_str()) {
                Ok(p) => {
                    patterns.push(p);
                    assert(patterns@.map_values(|p: glob::Pattern| pattern_text(p)) =~= before.push(
                        text@,
                    ));
                    assert(texts.take(i + 1) =~= texts.take(i as int).push(text@));
                },
                Err(detail) => {
                    let mut m = String::from_str("Invalid pattern '");
                    m.append(text.as_str());
                    m.append("': ");
                    m.append(detail.as_str());
                    proof {
                        lemma_first_bad_stays(texts, i + 1);
                    }
                    return Err(StowError::pattern_error(m.as_str()));
                },
            }
            i += 1;
        }
        assert(texts.take(pattern_strings.len() as int) =~= texts);
        Ok(PatternMatcher { patterns })
    }

    /// Whether any pattern matches the path: its text, its last name, or any
    /// one of its components.
    pub fn matches(&self, path: &StowPath) -> (b: bool)
        ensures
            b == any_pattern_hits(self@, path@),
    {
        if self.patterns.len() == 0 {
            return false;
        }
        let path_str = path.to_string();
        let file_name = path.file_name();
        let components = path.components();
        let mut i: usize = 0;
        while i < self.patterns.len()
            invariant
                i <= self.patterns.len(),
                path_str@ == path@.text(),
                file_name is Some == path@.file_name() is Some,
                file_name matches Some(n) ==> Some(n@) == path@.file_name(),
                components.deep_view() == path@.components(),
                forall|k: int| 0 <= k < i ==> !pattern_hits(#[trigger] self@[k], path@),
            decreases self.patterns.len() - i,
        {
            let pattern = &self.patterns[i];
            assert(self@[i as int] == pattern_text(*pattern));
            if pattern_matches(pattern, path_str.as_str()) {
                return true;
            }
            match &file_name {
                Some(name) => {
                    if pattern_matches(pattern, name.as_str()) {
                        return true;
                    }
                },
                None => {},
            }
            let mut j: usize = 0;
            while j < components.len()
                invariant
                    j <= components.len(),
                    i < self@.len(),
                    self@[i as int] == pattern_text(*pattern),
                    components.deep_view() == path@.components(),
                    forall|k: int|
                        0 <= k < j ==> !glob_matches(
                            pattern_text(*pattern),
                            #[trigger] path@.components()[k],
                        ),
                decreases components.len() - j,
            {
                if pattern_matches(pattern, components[j].as_str()) {
                    proof {
                        assert(components.deep_view()[j as int] == components[j as int]@);
                        assert(glob_matches(self@[i as int], path@.components()[j as int]));
                        assert(pattern_hits(self@[i as int], path@));
                    }
                    return true;
                }
                assert(components.deep_view()[j as int] == components[j as int]@);
                j += 1;
            }
            i += 1;
        }
        false
    }

    /// Whether there are no patterns.
    pub fn is_empty(&self) -> (b: bool)
        ensures
            b == (self@.len() == 0),
    {
        self.patterns.len() == 0
    }

    /// The number of patterns.
    pub fn len(&self) -> (n: usize)
        ensures
            n == self@.len(),
    {
        self.patterns.len()
    }
}

/// A text that does not compile among the first `k` stays the first bad one
/// of the whole list.
pub proof fn lemma_first_bad_stays(texts: Seq<Seq<char>>, k: int)
    requires
        0 <= k <= texts.len(),
        first_bad(texts.take(k)) is Some,
    ensures
        first_bad(texts) == first_bad(texts.take(k)),
    decreases texts.len() - k,
{
    if k < texts.len() {
        assert(texts.take(k + 1).drop_last() =~= texts.take(k));
        lemma_first_bad_stays(texts, k + 1);
    } else {
        assert(texts.take(k) =~= texts);
    }
}

/// The ignore patterns and the defer patterns.
#[derive(Debug)]
pub struct PatternSet {
    ignore: PatternMatcher,
    defer: PatternMatcher,
}

/// The mathematical value of a [`PatternSet`]: the texts of both lists.
pub struct PatternSetView {
    pub ignore: Seq<Seq<char>>,
    pub defer: Seq<Seq<char>>,
}

impl PatternSetView {
    pub open spec fn should_ignore(self, path: PathView) -> bool {
        any_pattern_hits(self.ignore, path)
    }

    pub open spec fn should_defer(self, path: PathView) -> bool {
        any_pattern_hits(self.defer, path)
    }
}

impl View for PatternSet {
    type V = PatternSetView;

    closed spec fn view(&self) -> PatternSetView {
        PatternSetView { ignore: self.ignore@, defer: self.defer@ }
    }
}

impl PatternSet {
    /// Compiles both lists; a bad ignore pattern is reported before a bad
    /// defer pattern.
    pub fn new(ignore_patterns: &[String], defer_patterns: &[String]) -> (r: Result<
        Self,
        StowError,
    >)
        ensures
            match (first_bad(texts_of(ignore_patterns@)), first_bad(texts_of(defer_patterns@))) {
                (Some(i), _) => r matches Err(e) && e@ == bad_pattern_error(
                    texts_of(ignore_patterns@)[i],
                ),
                (None, Some(j)) => r matches Err(e) && e@ == bad_pattern_error(
                    texts_of(defer_patterns@)[j],
                ),
                (None, None) => r matches Ok(s) && s@ == (PatternSetView {
                    ignore: texts_of(ignore_patterns@),
                    defer: texts_of(defer_patterns@),
                }),
            },
    {
        let ignore = match PatternMatcher::new(ignore_patterns) {
            Ok(m) => m,
            Err(e) => {
                return Err(e);
            },
        };
        let defer = match PatternMatcher::new(defer_patterns) {
            Ok(m) => m,
            Err(e) => {
                return Err(e);
            },
        };
        Ok(PatternSet { ignore, defer })
    }

    /// A set without patterns.
    pub fn empty() -> (s: Self)
        ensures
            s@ == (PatternSetView { ignore: Seq::empty(), defer: Seq::empty() }),
    {
        let s = PatternSet {
            ignore: PatternMatcher { patterns: Vec::new() },
            defer: PatternMatcher { patterns: Vec::new() },
        };
        assert(s.ignore@ =~= Seq::empty());
        assert(s.defer@ =~= Seq::empty());
        s
    }

    /// Whether an ignore pattern matches the path.
    pub fn should_ignore(&self, path: &StowPath) -> (b: bool)
        ensures
            b == self@.should_ignore(path@),
    {
        self.ignore.matches(path)
    }

    /// Whether a defer pattern matches the path.
    pub fn should_defer(&self, path: &StowPath) -> (b: bool)
        ensures
            b == self@.should_defer(path@),
    {
        self.defer.matches(path)
    }
}

} // verus!
