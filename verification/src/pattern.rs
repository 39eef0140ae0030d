//! Acceptors for regular expressions and for bounded edit distance.
//!
//! Both are compiled by outside crates into a table of states. The table is
//! not looked into here: the acceptors step through it by the outside
//! crates' own functions, and what is known of it is what those functions
//! are trusted to do.

use crate::acceptor::{accepts, state_after, Acceptor};
use vstd::prelude::*;

verus! {

/// A compiled regular expression of `fst_regex`.
#[verifier::external_type_specification]
#[verifier::external_body]
pub struct ExRegexAutomaton(fst_regex::Regex);

/// The error of `fst_regex` for a pattern that it cannot compile.
#[verifier::external_type_specification]
#[verifier::external_body]
pub struct ExRegexError(fst_regex::Error);

/// A compiled edit-distance automaton of `fst_levenshtein`.
#[verifier::external_type_specification]
#[verifier::external_body]
pub struct ExLevenshteinAutomaton(fst_levenshtein::Levenshtein);

/// The error of `fst_levenshtein` for an automaton that it cannot build.
#[verifier::external_type_specification]
#[verifier::external_body]
pub struct ExLevenshteinError(fst_levenshtein::Error);

/// The table of states that a compiled regular expression holds: for each
/// state, the state that each of the 256 bytes leads to, if any, and whether
/// the state is a match.
pub uninterp spec fn regex_states(re: fst_regex::Regex) -> Seq<(Seq<Option<usize>>, bool)>;

/// The table of states that a compiled edit-distance automaton holds, in the
/// same form.
pub uninterp spec fn levenshtein_states(lev: fst_levenshtein::Levenshtein) -> Seq<
    (Seq<Option<usize>>, bool),
>;

/// The table that `fst_regex` compiles the pattern into on a machine whose
/// addresses have `width` bits; none for a pattern that it does not compile
/// there. The width counts because the compiler bounds the size of a
/// compiled pattern in bytes, and what it compiles holds addresses.
pub uninterp spec fn regex_table(pattern: Seq<char>, width: u32) -> Option<
    Seq<(Seq<Option<usize>>, bool)>,
>;

/// The table that `fst_levenshtein` builds for the keys within `distance` of
/// `text`; none where it builds no automaton.
pub uninterp spec fn levenshtein_table(text: Seq<char>, distance: u32) -> Option<
    Seq<(Seq<Option<usize>>, bool)>,
>;

/// The table has a first state, gives each state a transition for each byte,
/// and no transition leaves the table.
pub open spec fn table_closed(t: Seq<(Seq<Option<usize>>, bool)>) -> bool {
    &&& t.len() > 0
    &&& forall|s: int| 0 <= s < t.len() ==> (#[trigger] t[s]).0.len() == 256
    &&& forall|s: int, b: int|
        0 <= s < t.len() && 0 <= b < 256 ==> match #[trigger] t[s].0[b] {
            Some(n) => n < t.len(),
            None => true,
        }
}

/// `s` is no state, or a state of the table.
pub open spec fn table_state(t: Seq<(Seq<Option<usize>>, bool)>, s: Option<usize>) -> bool {
    match s {
        Some(i) => i < t.len(),
        None => true,
    }
}

/// The state that byte `b` leads to from `s`; none from no state.
pub open spec fn table_step(t: Seq<(Seq<Option<usize>>, bool)>, s: Option<usize>, b: u8) -> Option<
    usize,
> {
    match s {
        Some(i) => t[i as int].0[b as int],
        None => None,
    }
}

/// `s` is a state of the table that is a match.
pub open spec fn table_final(t: Seq<(Seq<Option<usize>>, bool)>, s: Option<usize>) -> bool {
    match s {
        Some(i) => t[i as int].1,
        None => false,
    }
}

/// The state of the table after `key` is read from its first state.
pub open spec fn table_after(t: Seq<(Seq<Option<usize>>, bool)>, key: Seq<u8>) -> Option<usize>
    decreases key.len(),
{
    if key.len() == 0 {
        Some(0usize)
    } else {
        table_step(t, table_after(t, key.drop_last()), key.last())
    }
}

/// Reading `key` from the first state of the table ends in a match.
pub open spec fn table_accepts(t: Seq<(Seq<Option<usize>>, bool)>, key: Seq<u8>) -> bool {
    table_final(t, table_after(t, key))
}

/// Why an acceptor could not be built.
#[derive(Clone, Debug, PartialEq, Eq)]
pub enum PatternError {
    /// The pattern is no regular expression that can be compiled.
    InvalidRegex { pattern: String },
    /// No automaton can be built for the text within this distance.
    InvalidDistance { text: String, distance: u32 },
}

/// Calls `fst_regex::Regex::new`. Trusted: whether the pattern compiles,
/// and the table of what it compiles into, depend on the pattern and on the
/// width of the machine's addresses alone; the table has a first state and
/// no transition leaves it.
#[verifier::external_body]
fn regex_compile(pattern: &str) -> (r: Result<fst_regex::Regex, fst_regex::Error>)
    ensures
        match r {
            Ok(re) => regex_table(pattern@, usize::BITS) == Some(regex_states(re))
                && table_closed(regex_states(re)),
            Err(_) => regex_table(pattern@, usize::BITS) is None,
        },
{
    fst_regex::Regex::new(pattern)
}

/// Calls `fst::Automaton::start` of `fst_regex::Regex`. Trusted: the start
/// is the first state of the table.
#[verifier::external_body]
fn regex_start(re: &fst_regex::Regex) -> (s: Option<usize>)
    ensures
        s == Some(0usize),
{
    fst::Automaton::start(re)
}

/// Calls `fst::Automaton::accept` of `fst_regex::Regex`. Trusted: the result
/// is the table's entry for the state and the byte, and none for no state.
#[verifier::external_body]
fn regex_accept(re: &fst_regex::Regex, s: &Option<usize>, b: u8) -> (t: Option<usize>)
    requires
        table_state(regex_states(*re), *s),
    ensures
        t == table_step(regex_states(*re), *s, b),
{
    fst::Automaton::accept(re, s, b)
}

/// Calls `fst::Automaton::is_match` of `fst_regex::Regex`. Trusted: the
/// result is the table's mark for the state, and false for no state.
#[verifier::external_body]
fn regex_is_match(re: &fst_regex::Regex, s: &Option<usize>) -> (r: bool)
    requires
        table_state(regex_states(*re), *s),
    ensures
        r == table_final(regex_states(*re), *s),
{
    fst::Automaton::is_match(re, s)
}

/// Calls `fst::Automaton::can_match` of `fst_regex::Regex`. Trusted: the
/// result says whether there is a state.
#[verifier::external_body]
fn regex_can_match(re: &fst_regex::Regex, s: &Option<usize>) -> (r: bool)
    ensures
        r == (*s is Some),
{
    fst::Automaton::can_match(re, s)
}

/// Calls `fst_levenshtein::Levenshtein::new`, which adds one to the
/// distance. Trusted: whether an automaton is built, and its table, depend on
/// the text and the distance alone; the table has a first state and no
/// transition leaves it.
#[verifier::external_body]
fn levenshtein_build(text: &str, distance: u32) -> (r: Result<
    fst_levenshtein::Levenshtein,
    fst_levenshtein::Error,
>)
    requires
        distance < u32::MAX,
    ensures
        match r {
            Ok(lev) => levenshtein_table(text@, distance) == Some(levenshtein_states(lev))
                && table_closed(levenshtein_states(lev)),
            Err(_) => levenshtein_table(text@, distance) is None,
        },
{
    fst_levenshtein::Levenshtein::new(text, distance)
}

/// Calls `fst::Automaton::start` of `fst_levenshtein::Levenshtein`. Trusted:
/// the start is the first state of the table.
#[verifier::external_body]
fn levenshtein_start(lev: &fst_levenshtein::Levenshtein) -> (s: Option<usize>)
    ensures
        s == Some(0usize),
{
    fst::Automaton::start(lev)
}

/// Calls `fst::Automaton::accept` of `fst_levenshtein::Levenshtein`.
/// Trusted: the result is the table's entry for the state and the byte, and
/// none for no state.
#[verifier::external_body]
fn levenshtein_accept(lev: &fst_levenshtein::Levenshtein, s: &Option<usize>, b: u8) -> (t: Option<
    usize,
>)
    requires
        table_state(levenshtein_states(*lev), *s),
    ensures
        t == table_step(levenshtein_states(*lev), *s, b),
{
    fst::Automaton::accept(lev, s, b)
}

/// Calls `fst::Automaton::is_match` of `fst_levenshtein::Levenshtein`.
/// Trusted: the result is the table's mark for the state, and false for no
/// state.
#[verifier::external_body]
fn levenshtein_is_match(lev: &fst_levenshtein::Levenshtein, s: &Option<usize>) -> (r: bool)
    requires
        table_state(levenshtein_states(*lev), *s),
    ensures
        r == table_final(levenshtein_states(*lev), *s),
{
    fst::Automaton::is_match(lev, s)
}

/// Calls `fst::Automaton::can_match` of `fst_levenshtein::Levenshtein`.
/// Trusted: the result says whether there is a state.
#[verifier::external_body]
fn levenshtein_can_match(lev: &fst_levenshtein::Levenshtein, s: &Option<usize>) -> (r: bool)
    ensures
        r == (*s is Some),
{
    fst::Automaton::can_match(lev, s)
}

/// Accepts the keys that a regular expression matches as a whole.
#[derive(Debug)]
pub struct RegexAcceptor {
    pub automaton: fst_regex::Regex,
}

impl RegexAcceptor {
    /// Compiles `pattern`. It succeeds on the patterns that the compiler
    /// compiles on this machine, and the acceptor then holds the table that
    /// the pattern compiles into; on any other pattern the error names the
    /// pattern.
    pub fn new(pattern: &str) -> (r: Result<RegexAcceptor, PatternError>)
        ensures
            r is Ok <==> regex_table(pattern@, usize::BITS) is Some,
            match r {
                Ok(re) => re.wf() && regex_table(pattern@, usize::BITS) == Some(
                    regex_states(re.automaton),
                ),
                Err(e) => e matches PatternError::InvalidRegex { pattern: p } && p@ == pattern@,
            },
    {
        Self::from_compiled(regex_compile(pattern), pattern)
    }

    /// The acceptor for a regular expression that compiled, and for one that
    /// did not the error that names the pattern.
    pub fn from_compiled(compiled: Result<fst_regex::Regex, fst_regex::Error>, pattern: &str) -> (r:
        Result<RegexAcceptor, PatternError>)
        requires
            compiled matches Ok(re) ==> table_closed(regex_states(re)),
        ensures
            match compiled {
                Ok(re) => r matches Ok(a) && a.automaton == re && a.wf(),
                Err(_) => r matches Err(PatternError::InvalidRegex { pattern: p }) && p@ == pattern@,
            },
    {
        match compiled {
            Ok(automaton) => Ok(RegexAcceptor { automaton }),
            Err(_) => Err(PatternError::InvalidRegex { pattern: pattern.to_owned() }),
        }
    }
}

impl RegexAcceptor {
    /// A key is accepted if and only if reading it from the first state of
    /// the compiled table ends in a match.
    pub proof fn lemma_accepts(&self, key: Seq<u8>)
        ensures
            state_after(self, key) == table_after(regex_states(self.automaton), key),
            accepts(self, key) <==> table_accepts(regex_states(self.automaton), key),
        decreases key.len(),
    {
        if key.len() > 0 {
            self.lemma_accepts(key.drop_last());
        }
    }
}

impl Acceptor for RegexAcceptor {
    type State = Option<usize>;

    open spec fn wf(&self) -> bool {
        table_closed(regex_states(self.automaton))
    }

    open spec fn inv(&self, s: Option<usize>) -> bool {
        table_state(regex_states(self.automaton), s)
    }

    open spec fn initial(&self) -> Option<usize> {
        Some(0usize)
    }

    open spec fn step(&self, s: Option<usize>, b: u8) -> Option<usize> {
        table_step(regex_states(self.automaton), s, b)
    }

    open spec fn accepting(&self, s: Option<usize>) -> bool {
        table_final(regex_states(self.automaton), s)
    }

    open spec fn live(&self, s: Option<usize>) -> bool {
        s is Some
    }

    proof fn lemma_initial(&self) {
    }

    proof fn lemma_step(&self, s: Option<usize>, b: u8) {
        let t = regex_states(self.automaton);
        if let Some(i) = s {
            assert(table_state(t, t[i as int].0[b as int]));
        }
    }

    proof fn lemma_dead(&self, s: Option<usize>, b: u8) {
    }

    fn start(&self) -> (s: Option<usize>) {
        regex_start(&self.automaton)
    }

    fn accept(&self, s: &Option<usize>, b: u8) -> (t: Option<usize>) {
        regex_accept(&self.automaton, s, b)
    }

    fn is_match(&self, s: &Option<usize>) -> (r: bool) {
        regex_is_match(&self.automaton, s)
    }

    fn can_match(&self, s: &Option<usize>) -> (r: bool) {
        regex_can_match(&self.automaton, s)
    }
}

/// Accepts the keys within a bounded edit distance of a text.
#[derive(Debug)]
pub struct EditDistance {
    pub automaton: fst_levenshtein::Levenshtein,
}

impl EditDistance {
    /// Builds the automaton for the keys within `distance` of `text`. The
    /// greatest distance that can be written is refused; for any other,
    /// whether an automaton can be built is for the builder to say. The error
    /// names the text and the distance.
    pub fn new(text: &str, distance: u32) -> (r: Result<EditDistance, PatternError>)
        ensures
            r is Ok <==> distance < u32::MAX && levenshtein_table(text@, distance) is Some,
            match r {
                Ok(lev) => lev.wf() && levenshtein_table(text@, distance) == Some(
                    levenshtein_states(lev.automaton),
                ),
                Err(e) => e matches PatternError::InvalidDistance { text: t, distance: d } && t@
                    == text@ && d == distance,
            },
    {
        if distance == u32::MAX {
            Err(PatternError::InvalidDistance { text: text.to_owned(), distance })
        } else {
            let built = levenshtein_build(text, distance);
            let r = Self::from_built(built, text, distance);
            r
        }
    }

    /// The acceptor for an automaton that was built, and for one that was
    /// not the error that names the text and the distance.
    pub fn from_built(
        built: Result<fst_levenshtein::Levenshtein, fst_levenshtein::Error>,
        text: &str,
        distance: u32,
    ) -> (r: Result<EditDistance, PatternError>)
        requires
            built matches Ok(lev) ==> table_closed(levenshtein_states(lev)),
        ensures
            match built {
                Ok(lev) => r matches Ok(a) && a.automaton == lev && a.wf(),
                Err(_) => r matches Err(PatternError::InvalidDistance { text: t, distance: d }) && t@
                    == text@ && d == distance,
            },
    {
        match built {
            Ok(automaton) => Ok(EditDistance { automaton }),
            Err(_) => Err(PatternError::InvalidDistance { text: text.to_owned(), distance }),
        }
    }
}

impl EditDistance {
    /// A key is accepted if and only if reading it from the first state of
    /// the automaton's table ends in a match.
    pub proof fn lemma_accepts(&self, key: Seq<u8>)
        ensures
            state_after(self, key) == table_after(levenshtein_states(self.automaton), key),
            accepts(self, key) <==> table_accepts(levenshtein_states(self.automaton), key),
        decreases key.len(),
    {
        if key.len() > 0 {
            self.lemma_accepts(key.drop_last());
        }
    }
}

impl Acceptor for EditDistance {
    type State = Option<usize>;

    open spec fn wf(&self) -> bool {
        table_closed(levenshtein_states(self.automaton))
    }

    open spec fn inv(&self, s: Option<usize>) -> bool {
        table_state(levenshtein_states(self.automaton), s)
    }

    open spec fn initial(&self) -> Option<usize> {
        Some(0usize)
    }

    open spec fn step(&self, s: Option<usize>, b: u8) -> Option<usize> {
        table_step(levenshtein_states(self.automaton), s, b)
    }

    open spec fn accepting(&self, s: Option<usize>) -> bool {
        table_final(levenshtein_states(self.automaton), s)
    }

    open spec fn live(&self, s: Option<usize>) -> bool {
        s is Some
    }

    proof fn lemma_initial(&self) {
    }

    proof fn lemma_step(&self, s: Option<usize>, b: u8) {
        let t = levenshtein_states(self.automaton);
        if let Some(i) = s {
            assert(table_state(t, t[i as int].0[b as int]));
        }
    }

    proof fn lemma_dead(&self, s: Option<usize>, b: u8) {
    }

    fn start(&self) -> (s: Option<usize>) {
        levenshtein_start(&self.automaton)
    }

    fn accept(&self, s: &Option<usize>, b: u8) -> (t: Option<usize>) {
        levenshtein_accept(&self.automaton, s, b)
    }

    fn is_match(&self, s: &Option<usize>) -> (r: bool) {
        levenshtein_is_match(&self.automaton, s)
    }

    fn can_match(&self, s: &Option<usize>) -> (r: bool) {
        levenshtein_can_match(&self.automaton, s)
    }
}

} // verus!
