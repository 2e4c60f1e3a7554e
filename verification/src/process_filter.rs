//! Regex-based process filtering.
//!
//! Users can provide several regex patterns; a process matches the filter
//! set if *any* pattern matches its name or full command line. Matching is
//! case-insensitive by default unless the user opts out by using explicit
//! inline flags in the pattern.

use regex::{Regex, RegexBuilder};
use vstd::prelude::*;
use vstd::string::*;

use crate::text::lower;

verus! {

/// `regex::Regex`, a compiled pattern, as an opaque type.
#[verifier::external_type_specification]
#[verifier::external_body]
pub struct ExRegex(Regex);

/// `regex::Error`, the reason why a pattern was refused, as an opaque type.
#[verifier::external_type_specification]
#[verifier::external_body]
pub struct ExRegexError(regex::Error);

/// What the `regex` crate makes of a pattern when letter case is ignored: a
/// regex, or the reason why the pattern is none.
pub uninterp spec fn case_blind_regex(pattern: Seq<char>) -> Result<Regex, regex::Error>;

/// Whether the regex has a match anywhere in the text.
pub uninterp spec fn regex_is_match(regex: Regex, text: Seq<char>) -> bool;

/// The message of a regex error.
pub uninterp spec fn regex_error_text(error: regex::Error) -> Seq<char>;

/// The character at `i` is escaped by a backslash before it, one that is not
/// escaped itself.
pub open spec fn is_escaped(pattern: Seq<char>, i: int) -> bool
    decreases i,
{
    i > 0 && pattern[i - 1] == '\\' && !is_escaped(pattern, i - 1)
}

/// A character that switches flags on or off behind `(?`.
pub open spec fn is_flag(c: char) -> bool {
    c == 'i' || c == 'm' || c == 's' || c == 'U' || c == 'u' || c == 'R' || c == 'x' || c == '-'
}

/// A group that sets flags opens at `i`, as in `(?i)` or `(?-i:..)`. Groups such
/// as `(?:..)` and `(?P<name>..)` set none, and an escaped parenthesis opens no
/// group.
pub open spec fn sets_flags_at(pattern: Seq<char>, i: int) -> bool {
    &&& 0 <= i
    &&& i + 2 < pattern.len()
    &&& pattern[i] == '('
    &&& pattern[i + 1] == '?'
    &&& is_flag(pattern[i + 2])
    &&& !is_escaped(pattern, i)
}

/// The pattern may switch flags within itself.
pub open spec fn has_inline_flags(pattern: Seq<char>) -> bool {
    exists|i: int| sets_flags_at(pattern, i)
}

/// The regex does not tell ASCII capitals from small letters.
pub open spec fn ignores_case(regex: Regex) -> bool {
    forall|a: Seq<char>, b: Seq<char>|
        lower(a) == lower(b) ==> #[trigger] regex_is_match(regex, a) == #[trigger] regex_is_match(
            regex,
            b,
        )
}

/// Compiles a pattern with `RegexBuilder`, told to ignore case. The claims are
/// that the outcome depends on the pattern alone, and that the regex of a
/// pattern that switches no flags matches capitals and small letters alike.
/// Which patterns are accepted, and which texts they match otherwise, is left
/// unsaid.
#[verifier::external_body]
fn compile(pattern: &str) -> (r: Result<Regex, regex::Error>)
    ensures
        r == case_blind_regex(pattern@),
        r is Ok && !has_inline_flags(pattern@) ==> ignores_case(r->Ok_0),
{
    RegexBuilder::new(pattern).case_insensitive(true).build()
}

/// Calls `Regex::is_match`. The claim is that the answer depends on the regex
/// and the text alone.
#[verifier::external_body]
fn is_match(regex: &Regex, text: &str) -> (r: bool)
    ensures
        r == regex_is_match(*regex, text@),
{
    regex.is_match(text)
}

/// The text that a regex error displays. The claim is that it depends on the
/// error alone.
#[verifier::external_body]
fn error_text(error: &regex::Error) -> (r: String)
    ensures
        r@ == regex_error_text(*error),
{
    error.to_string()
}

/// A clone of a `Regex` is the same regex: it shares the compiled program.
pub assume_specification[ <Regex as Clone>::clone ](regex: &Regex) -> (r: Regex)
    ensures
        r == *regex,
;

/// Why a pattern was refused.
#[derive(Debug)]
pub enum FilterError {
    InvalidRegex { pattern: String, source: regex::Error },
}

/// The message for a pattern that is no regex.
pub open spec fn invalid_regex_text(pattern: Seq<char>, reason: Seq<char>) -> Seq<char> {
    "invalid regex '"@ + pattern + "': "@ + reason
}

impl FilterError {
    pub open spec fn text(self) -> Seq<char> {
        match self {
            FilterError::InvalidRegex { pattern, source } => invalid_regex_text(
                pattern@,
                regex_error_text(source),
            ),
        }
    }

    /// The message to show to the user.
    pub fn to_string(&self) -> (r: String)
        ensures
            r@ == self.text(),
    {
        match self {
            FilterError::InvalidRegex { pattern, source } => {
                let reason: String = error_text(source);
                FilterError::message(pattern.as_str(), reason.as_str())
            },
        }
    }

    /// The message for a pattern that was refused for the given reason.
    pub fn message(pattern: &str, reason: &str) -> (r: String)
        ensures
            r@ == invalid_regex_text(pattern@, reason@),
    {
        let mut r: String = String::new();
        r.append("invalid regex '");
        r.append(pattern);
        r.append("': ");
        r.append(reason);
        assert(r@ =~= invalid_regex_text(pattern@, reason@));
        r
    }
}

/// A pattern together with the regex that it was compiled to.
#[derive(Debug)]
pub struct CompiledPattern {
    raw: String,
    regex: Regex,
}

impl CompiledPattern {
    pub closed spec fn pattern(self) -> Seq<char> {
        self.raw@
    }

    pub closed spec fn regex(self) -> Regex {
        self.regex
    }

    /// The regex is what the pattern compiles to, and ignores case unless the
    /// pattern says otherwise.
    pub open spec fn wf(self) -> bool {
        &&& case_blind_regex(self.pattern()) == Ok::<Regex, regex::Error>(self.regex())
        &&& !has_inline_flags(self.pattern()) ==> ignores_case(self.regex())
    }

    fn is_match(&self, text: &str) -> (r: bool)
        ensures
            r == regex_is_match(self.regex(), text@),
    {
        is_match(&self.regex, text)
    }
}

impl Clone for CompiledPattern {
    fn clone(&self) -> (r: Self)
        ensures
            r == *self,
    {
        CompiledPattern { raw: self.raw.clone(), regex: self.regex.clone() }
    }
}

/// A single user-specified regex filter.
#[derive(Debug)]
pub struct ProcessFilter {
    pub compiled: CompiledPattern,
    /// If true, children (and transitive descendants) of matched processes
    /// are also included.
    pub include_children: bool,
    /// If true, this filter is active; otherwise it's skipped.
    pub enabled: bool,
}

impl Clone for ProcessFilter {
    fn clone(&self) -> (r: Self)
        ensures
            r == *self,
    {
        ProcessFilter {
            compiled: self.compiled.clone(),
            include_children: self.include_children,
            enabled: self.enabled,
        }
    }
}

/// What becomes of a pattern whose compilation had the given outcome: a filter
/// that is active and follows children, or the error.
pub open spec fn filter_outcome(
    pattern: Seq<char>,
    outcome: Result<Regex, regex::Error>,
    r: Result<ProcessFilter, FilterError>,
) -> bool {
    match outcome {
        Ok(regex) => {
            &&& r matches Ok(f)
            &&& f.compiled.pattern() == pattern
            &&& f.compiled.regex() == regex
            &&& f.include_children
            &&& f.enabled
        },
        Err(e) => {
            &&& r matches Err(FilterError::InvalidRegex { pattern: p, source })
            &&& p@ == pattern
            &&& source == e
        },
    }
}

impl ProcessFilter {
    pub open spec fn wf(self) -> bool {
        self.compiled.wf()
    }

    /// The filter's regex has a match in the name or in the command line.
    pub open spec fn hits(self, name: Seq<char>, cmdline: Seq<char>) -> bool {
        regex_is_match(self.compiled.regex(), name) || regex_is_match(
            self.compiled.regex(),
            cmdline,
        )
    }

    pub open spec fn accepts(self, name: Seq<char>, cmdline: Seq<char>) -> bool {
        self.enabled && self.hits(name, cmdline)
    }

    pub fn new(pattern: &str) -> (r: Result<Self, FilterError>)
        ensures
            filter_outcome(pattern@, case_blind_regex(pattern@), r),
            r matches Ok(f) ==> f.wf(),
    {
        ProcessFilter::from_outcome(pattern, compile(pattern))
    }

    /// The filter for a pattern whose compilation had the given outcome.
    pub fn from_outcome(pattern: &str, outcome: Result<Regex, regex::Error>) -> (r: Result<
        Self,
        FilterError,
    >)
        ensures
            filter_outcome(pattern@, outcome, r),
    {
        match outcome {
            Ok(regex) => Ok(
                ProcessFilter {
                    compiled: CompiledPattern { raw: pattern.to_owned(), regex },
                    include_children: true,
                    enabled: true,
                },
            ),
            Err(source) => Err(
                FilterError::InvalidRegex { pattern: pattern.to_owned(), source },
            ),
        }
    }

    pub fn pattern(&self) -> (r: &str)
        ensures
            r@ == self.compiled.pattern(),
    {
        self.compiled.raw.as_str()
    }

    pub fn matches(&self, name: &str, cmdline: &str) -> (r: bool)
        ensures
            r == self.accepts(name@, cmdline@),
    {
        if !self.enabled {
            return false;
        }
        self.compiled.is_match(name) || self.compiled.is_match(cmdline)
    }
}

/// A collection of filters combined with logical OR.
#[derive(Debug)]
pub struct FilterSet {
    pub filters: Vec<ProcessFilter>,
}

impl Default for FilterSet {
    fn default() -> (r: Self)
        ensures
            r.filters@ == Seq::<ProcessFilter>::empty(),
    {
        FilterSet { filters: Vec::new() }
    }
}

impl Clone for FilterSet {
    fn clone(&self) -> (r: Self)
        ensures
            r.filters@ == self.filters@,
    {
        let mut filters: Vec<ProcessFilter> = Vec::new();
        let mut i: usize = 0;
        while i < self.filters.len()
            invariant
                i <= self.filters@.len(),
                filters@ == self.filters@.take(i as int),
            decreases self.filters@.len() - i,
        {
            filters.push(self.filters[i].clone());
            i = i + 1;
            assert(filters@ =~= self.filters@.take(i as int));
        }
        assert(self.filters@.take(i as int) =~= self.filters@);
        FilterSet { filters }
    }
}

impl FilterSet {
    pub open spec fn wf(self) -> bool {
        forall|i: int| 0 <= i < self.filters@.len() ==> (#[trigger] self.filters@[i]).wf()
    }

    /// Some active filter matches.
    pub open spec fn accepts(self, name: Seq<char>, cmdline: Seq<char>) -> bool {
        exists|i: int|
            0 <= i < self.filters@.len() && (#[trigger] self.filters@[i]).accepts(name, cmdline)
    }

    /// No filter is active.
    pub open spec fn inactive(self) -> bool {
        forall|i: int| 0 <= i < self.filters@.len() ==> !(#[trigger] self.filters@[i]).enabled
    }

    /// Some active filter asks for children.
    pub open spec fn follows_children(self) -> bool {
        exists|i: int|
            0 <= i < self.filters@.len() && (#[trigger] self.filters@[i]).enabled
                && self.filters@[i].include_children
    }

    pub fn new() -> (r: Self)
        ensures
            r.filters@ == Seq::<ProcessFilter>::empty(),
    {
        FilterSet { filters: Vec::new() }
    }

    pub fn push(&mut self, filter: ProcessFilter)
        ensures
            final(self).filters@ == old(self).filters@.push(filter),
    {
        self.filters.push(filter);
    }

    pub fn remove(&mut self, index: usize)
        ensures
            index < old(self).filters@.len() ==> final(self).filters@ == old(self).filters@.remove(
                index as int,
            ),
            index >= old(self).filters@.len() ==> final(self).filters@ == old(self).filters@,
    {
        if index < self.filters.len() {
            self.filters.remove(index);
        }
    }

    pub fn clear(&mut self)
        ensures
            final(self).filters@ == Seq::<ProcessFilter>::empty(),
    {
        self.filters.clear();
    }

    pub fn is_empty(&self) -> (r: bool)
        ensures
            r == self.inactive(),
    {
        let mut i: usize = 0;
        while i < self.filters.len()
            invariant
                i <= self.filters@.len(),
                forall|k: int| 0 <= k < i ==> !(#[trigger] self.filters@[k]).enabled,
            decreases self.filters@.len() - i,
        {
            if self.filters[i].enabled {
                return false;
            }
            i = i + 1;
        }
        true
    }

    /// Returns true if *any* active filter matches the process.
    pub fn matches(&self, name: &str, cmdline: &str) -> (r: bool)
        ensures
            r == self.accepts(name@, cmdline@),
    {
        let mut hits: Vec<bool> = Vec::new();
        let mut i: usize = 0;
        while i < self.filters.len()
            invariant
                i <= self.filters@.len(),
                hits@.len() == i,
                forall|k: int|
                    0 <= k < i ==> hits@[k] == (#[trigger] self.filters@[k]).accepts(
                        name@,
                        cmdline@,
                    ),
            decreases self.filters@.len() - i,
        {
            hits.push(self.filters[i].matches(name, cmdline));
            i = i + 1;
        }
        self.any_active(&hits)
    }

    /// Returns true if *any* active filter is among those whose regex has a
    /// match: `hits[i]` says it of the filter at position `i`, and a filter
    /// that has no such entry has no match.
    pub fn any_active(&self, hits: &Vec<bool>) -> (r: bool)
        ensures
            r == (exists|i: int|
                0 <= i < self.filters@.len() && i < hits@.len() && (
                #[trigger] self.filters@[i]).enabled && hits@[i]),
    {
        let mut i: usize = 0;
        while i < self.filters.len() && i < hits.len()
            invariant
                i <= self.filters@.len(),
                i <= hits@.len(),
                forall|k: int| 0 <= k < i ==> !((#[trigger] self.filters@[k]).enabled && hits@[k]),
            decreases self.filters@.len() - i,
        {
            if self.filters[i].enabled && hits[i] {
                return true;
            }
            i = i + 1;
        }
        false
    }

    /// Returns true if at least one filter requests child inclusion.
    pub fn wants_children(&self) -> (r: bool)
        ensures
            r == self.follows_children(),
    {
        let mut i: usize = 0;
        while i < self.filters.len()
            invariant
                i <= self.filters@.len(),
                forall|k: int|
                    0 <= k < i ==> !((#[trigger] self.filters@[k]).enabled
                        && self.filters@[k].include_children),
            decreases self.filters@.len() - i,
        {
            if self.filters[i].enabled && self.filters[i].include_children {
                return true;
            }
            i = i + 1;
        }
        false
    }
}

/// A set without an active filter, the empty one included, matches no process
/// and asks for no children.
pub proof fn inactive_set_accepts_nothing(set: FilterSet, name: Seq<char>, cmdline: Seq<char>)
    requires
        set.inactive(),
    ensures
        !set.accepts(name, cmdline),
        !set.follows_children(),
{
}

/// Filters are alternatives: adding one to a set adds what it matches and
/// takes nothing away.
pub proof fn filters_are_alternatives(
    set: FilterSet,
    added: ProcessFilter,
    grown: FilterSet,
    name: Seq<char>,
    cmdline: Seq<char>,
)
    requires
        grown.filters@ == set.filters@.push(added),
    ensures
        grown.accepts(name, cmdline) == (set.accepts(name, cmdline) || added.accepts(
            name,
            cmdline,
        )),
{
    let n = set.filters@.len() as int;
    if set.accepts(name, cmdline) {
        let i = choose|i: int|
            0 <= i < n && (#[trigger] set.filters@[i]).accepts(name, cmdline);
        assert(grown.filters@[i] == set.filters@[i]);
    }
    if added.accepts(name, cmdline) {
        assert(grown.filters@[n] == added);
    }
    if grown.accepts(name, cmdline) {
        let i = choose|i: int|
            0 <= i < n + 1 && (#[trigger] grown.filters@[i]).accepts(name, cmdline);
        if i < n {
            assert(set.filters@[i] == grown.filters@[i]);
        }
    }
}

/// A filter made from a pattern accepts a process exactly where it is active
/// and the pattern's regex has a match in the name or in the command line.
pub proof fn filter_goes_by_its_pattern(
    filter: ProcessFilter,
    name: Seq<char>,
    cmdline: Seq<char>,
)
    requires
        filter.wf(),
    ensures
        case_blind_regex(filter.compiled.pattern()) matches Ok(regex) && filter.accepts(
            name,
            cmdline,
        ) == (filter.enabled && (regex_is_match(regex, name) || regex_is_match(regex, cmdline))),
{
}

/// Matching is case-insensitive, unless the pattern switches flags: a filter
/// accepts or refuses alike what differs in ASCII letter case only.
pub proof fn filters_ignore_case(
    filter: ProcessFilter,
    name: Seq<char>,
    cmdline: Seq<char>,
    other_name: Seq<char>,
    other_cmdline: Seq<char>,
)
    requires
        filter.wf(),
        !has_inline_flags(filter.compiled.pattern()),
        lower(name) == lower(other_name),
        lower(cmdline) == lower(other_cmdline),
    ensures
        filter.accepts(name, cmdline) == filter.accepts(other_name, other_cmdline),
{
}

/// A filter accepts a process where it is active and its regex has a match in
/// the name or in the command line.
pub proof fn filter_looks_at_name_and_command_line(
    filter: ProcessFilter,
    name: Seq<char>,
    cmdline: Seq<char>,
)
    ensures
        !filter.enabled ==> !filter.accepts(name, cmdline),
        filter.enabled && regex_is_match(filter.compiled.regex(), name) ==> filter.accepts(
            name,
            cmdline,
        ),
        filter.enabled && regex_is_match(filter.compiled.regex(), cmdline) ==> filter.accepts(
            name,
            cmdline,
        ),
        filter.accepts(name, cmdline) ==> regex_is_match(filter.compiled.regex(), name)
            || regex_is_match(filter.compiled.regex(), cmdline),
{
}

/// Any one active filter decides for the whole set, at whatever position it
/// stands: that it matches, that children are followed, and that the set is
/// not idle.
pub proof fn any_filter_speaks_for_the_set(
    set: FilterSet,
    i: int,
    name: Seq<char>,
    cmdline: Seq<char>,
)
    requires
        0 <= i < set.filters@.len(),
        set.filters@[i].enabled,
    ensures
        !set.inactive(),
        set.filters@[i].include_children ==> set.follows_children(),
        regex_is_match(set.filters@[i].compiled.regex(), name) || regex_is_match(
            set.filters@[i].compiled.regex(),
            cmdline,
        ) ==> set.accepts(name, cmdline),
{
    let f = set.filters@[i];
    if regex_is_match(f.compiled.regex(), name) || regex_is_match(f.compiled.regex(), cmdline) {
        assert(set.filters@[i].accepts(name, cmdline));
    }
}

/// A set does nothing that none of its filters does.
pub proof fn set_speaks_through_its_filters(set: FilterSet, name: Seq<char>, cmdline: Seq<char>)
    ensures
        !set.inactive() ==> exists|i: int|
            0 <= i < set.filters@.len() && (#[trigger] set.filters@[i]).enabled,
        set.follows_children() ==> exists|i: int|
            0 <= i < set.filters@.len() && (#[trigger] set.filters@[i]).enabled
                && set.filters@[i].include_children,
        set.accepts(name, cmdline) ==> exists|i: int|
            0 <= i < set.filters@.len() && (#[trigger] set.filters@[i]).enabled && (
            regex_is_match(set.filters@[i].compiled.regex(), name) || regex_is_match(
                set.filters@[i].compiled.regex(),
                cmdline,
            )),
{
}

/// Adding a filter to a set makes it follow children exactly where it did
/// before or the added filter is active and asks for children; the set becomes
/// idle no more where the added filter is active.
pub proof fn added_filters_bring_their_children(
    set: FilterSet,
    added: ProcessFilter,
    grown: FilterSet,
)
    requires
        grown.filters@ == set.filters@.push(added),
    ensures
        grown.follows_children() == (set.follows_children() || (added.enabled
            && added.include_children)),
        grown.inactive() == (set.inactive() && !added.enabled),
{
    let n = set.filters@.len() as int;
    assert(grown.filters@[n] == added);
    assert forall|i: int| 0 <= i < n implies #[trigger] grown.filters@[i] == set.filters@[i] by {}
    if set.follows_children() {
        let i = choose|i: int|
            0 <= i < set.filters@.len() && (#[trigger] set.filters@[i]).enabled
                && set.filters@[i].include_children;
        assert(grown.filters@[i].include_children);
    }
    if !set.inactive() {
        let i = choose|i: int| 0 <= i < n && (#[trigger] set.filters@[i]).enabled;
        assert(grown.filters@[i].enabled);
    }
    if grown.inactive() {
        assert forall|i: int| 0 <= i < n implies !(#[trigger] set.filters@[i]).enabled by {
            assert(!grown.filters@[i].enabled);
        }
    }
    if grown.follows_children() {
        let i = choose|i: int|
            0 <= i < grown.filters@.len() && (#[trigger] grown.filters@[i]).enabled
                && grown.filters@[i].include_children;
        if i < n {
            assert(set.filters@[i].include_children);
        }
    }
}

/// A pattern becomes a filter exactly where it compiled: an active one, with
/// the pattern and the regex, that follows children. Else the error holds the
/// pattern and the reason.
pub proof fn patterns_become_filters(
    pattern: Seq<char>,
    outcome: Result<Regex, regex::Error>,
    r: Result<ProcessFilter, FilterError>,
)
    requires
        filter_outcome(pattern, outcome, r),
    ensures
        outcome is Ok <==> r is Ok,
        outcome is Ok ==> r->Ok_0.enabled && r->Ok_0.include_children && r->Ok_0.compiled.pattern()
            == pattern && r->Ok_0.compiled.regex() == outcome->Ok_0,
        outcome is Err ==> r->Err_0->pattern@ == pattern && r->Err_0->source == outcome->Err_0,
        outcome is Err ==> r->Err_0.text() == "invalid regex '"@ + pattern + "': "@
            + regex_error_text(outcome->Err_0),
{
}

} // verus!
