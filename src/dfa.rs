//! Levenshtein automatons and the typo policy that sizes them.
use vstd::prelude::*;
use levenshtein_automata::DFA;

verus! {

#[verifier::external_type_specification]
#[verifier::external_body]
pub struct ExDFA(DFA);

/// Whether `key` is within `typos` edits of `pattern` (of a prefix of `key`,
/// when `prefix` holds), as the automaton of `levenshtein_automata` built for
/// them decides.
pub uninterp spec fn within_typos(pattern: Seq<char>, typos: nat, prefix: bool, key: Seq<char>) -> bool;

/// The number of typos tolerated on a pattern of `len` characters: none up to
/// four characters, one up to eight, two beyond.
pub open spec fn typo_budget(len: nat) -> nat {
    if len <= 4 {
        0
    } else if len <= 8 {
        1
    } else {
        2
    }
}

pub fn max_typos(len: usize) -> (r: u8)
    ensures
        r as nat == typo_budget(len as nat),
        r <= 2,
{
    if len <= 4 {
        0
    } else if len <= 8 {
        1
    } else {
        2
    }
}

/// A Levenshtein automaton together with the pattern, typo budget and kind
/// (whole word or prefix) it was built for.
pub struct Matcher {
    dfa: DFA,
    pattern: Ghost<Seq<char>>,
    typos: Ghost<nat>,
    prefix: Ghost<bool>,
}

impl Matcher {
    pub closed spec fn pattern(&self) -> Seq<char> {
        self.pattern@
    }

    pub closed spec fn typos(&self) -> nat {
        self.typos@
    }

    pub closed spec fn prefix(&self) -> bool {
        self.prefix@
    }

    /// Relies on `DFA::eval`: `Exact` means the key is within the distance the
    /// automaton was built for. With no typo allowed and no prefix, that is the
    /// key being the pattern itself.
    #[verifier::external_body]
    pub fn accepts(&self, key: &str) -> (r: bool)
        ensures
            r == within_typos(self.pattern(), self.typos(), self.prefix(), key@),
            self.typos() == 0 && !self.prefix() ==> (r <==> key@ == self.pattern()),
    {
        matches!(self.dfa.eval(key), levenshtein_automata::Distance::Exact(_))
    }
}

/// Relies on `LevenshteinAutomatonBuilder::build_dfa` (transpositions costing
/// one); the builder is meant for small distances, hence the bound.
#[verifier::external_body]
pub fn exact_matcher(pattern: &str, typos: u8) -> (r: Matcher)
    requires
        typos <= 2,
    ensures
        r.pattern() == pattern@,
        r.typos() == typos as nat,
        !r.prefix(),
{
    let dfa = levenshtein_automata::LevenshteinAutomatonBuilder::new(typos, true).build_dfa(pattern);
    Matcher { dfa, pattern: Ghost(pattern@), typos: Ghost(typos as nat), prefix: Ghost(false) }
}

/// Relies on `LevenshteinAutomatonBuilder::build_prefix_dfa` (transpositions
/// costing one); the builder is meant for small distances, hence the bound.
#[verifier::external_body]
pub fn prefix_matcher(pattern: &str, typos: u8) -> (r: Matcher)
    requires
        typos <= 2,
    ensures
        r.pattern() == pattern@,
        r.typos() == typos as nat,
        r.prefix(),
{
    let dfa = levenshtein_automata::LevenshteinAutomatonBuilder::new(typos, true).build_prefix_dfa(pattern);
    Matcher { dfa, pattern: Ghost(pattern@), typos: Ghost(typos as nat), prefix: Ghost(true) }
}

/// Builds the matcher of `pattern` with the typo budget of its length, for a
/// prefix where `prefix` holds.
pub fn build_matcher(pattern: &str, prefix: bool) -> (r: Matcher)
    ensures
        r.pattern() == pattern@,
        r.typos() == typo_budget(pattern@.len()),
        r.prefix() == prefix,
{
    let chars = crate::text::chars_of(pattern);
    let typos = max_typos(chars.len());
    if prefix {
        prefix_matcher(pattern, typos)
    } else {
        exact_matcher(pattern, typos)
    }
}

} // verus!
