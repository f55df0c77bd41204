//! Automatons, their groups, and the order in which groups are tried.
use vstd::prelude::*;
use crate::dfa::{build_matcher, typo_budget, Matcher};
use crate::text::string_of;
use vstd::utf8::encode_utf8;

verus! {

/// A pattern to look up in the index, with what the ranking needs to know of it.
#[derive(Debug)]
pub struct Automaton {
    /// Handle of this automaton, given in emission order.
    pub index: usize,
    /// The number of query words it stands for.
    pub ngram: usize,
    /// The length of its text, in UTF-8 bytes.
    pub query_len: usize,
    pub is_exact: bool,
    pub is_prefix: bool,
    pub query: String,
}

/// Automatons looked up together: alternatives for one token, or, for a
/// phrase query, words that must all match one after the other.
#[derive(Debug)]
pub struct AutomatonGroup {
    pub is_phrase_query: bool,
    pub automatons: Vec<Automaton>,
}

/// The ordered groups of one compiled query.
pub struct AutomatonProducer {
    pub automatons: Vec<AutomatonGroup>,
}

impl Automaton {
    /// Builds the Levenshtein automaton of this pattern, with the typo budget
    /// of its length: a prefix automaton for a word still being typed.
    pub fn dfa(&self) -> (r: Matcher)
        ensures
            r.pattern() == self.query@,
            r.typos() == typo_budget(self.query@.len()),
            r.prefix() == self.is_prefix,
    {
        build_matcher(self.query.as_str(), self.is_prefix)
    }

    pub fn exact(index: usize, ngram: usize, query: &Vec<char>) -> (r: Automaton)
        ensures
            r.index == index,
            r.ngram == ngram,
            r.query@ == query@,
            r.query_len == encode_utf8(query@).len() as usize,
            r.is_exact,
            !r.is_prefix,
    {
        let query = string_of(query);
        let query_len = query.as_str().len();
        Automaton {
            index,
            ngram,
            query_len,
            is_exact: true,
            is_prefix: false,
            query,
        }
    }

    pub fn prefix_exact(index: usize, ngram: usize, query: &Vec<char>) -> (r: Automaton)
        ensures
            r.index == index,
            r.ngram == ngram,
            r.query@ == query@,
            r.query_len == encode_utf8(query@).len() as usize,
            r.is_exact,
            r.is_prefix,
    {
        let query = string_of(query);
        let query_len = query.as_str().len();
        Automaton {
            index,
            ngram,
            query_len,
            is_exact: true,
            is_prefix: true,
            query,
        }
    }

    pub fn non_exact(index: usize, ngram: usize, query: &Vec<char>) -> (r: Automaton)
        ensures
            r.index == index,
            r.ngram == ngram,
            r.query@ == query@,
            r.query_len == encode_utf8(query@).len() as usize,
            !r.is_exact,
            !r.is_prefix,
    {
        let query = string_of(query);
        let query_len = query.as_str().len();
        Automaton {
            index,
            ngram,
            query_len,
            is_exact: false,
            is_prefix: false,
            query,
        }
    }
}

impl AutomatonGroup {
    pub fn normal(automatons: Vec<Automaton>) -> (r: AutomatonGroup)
        ensures
            !r.is_phrase_query,
            r.automatons@ == automatons@,
    {
        AutomatonGroup { is_phrase_query: false, automatons }
    }

    pub fn phrase_query(automatons: Vec<Automaton>) -> (r: AutomatonGroup)
        ensures
            r.is_phrase_query,
            r.automatons@ == automatons@,
    {
        AutomatonGroup { is_phrase_query: true, automatons }
    }
}

impl AutomatonProducer {
    pub fn into_iter(self) -> (r: std::vec::IntoIter<AutomatonGroup>)
        ensures
            r == self.automatons.into_iter(),
    {
        self.automatons.into_iter()
    }
}

/// Whether `a` may come before `b`: exact before non-exact, then fewer query
/// words before more, then larger groups before smaller. Judged on the first
/// automaton of each group.
pub open spec fn group_key_le(a: AutomatonGroup, b: AutomatonGroup) -> bool {
    let x = a.automatons@[0];
    let y = b.automatons@[0];
    if x.is_exact != y.is_exact {
        x.is_exact
    } else if x.ngram != y.ngram {
        x.ngram < y.ngram
    } else {
        a.automatons@.len() >= b.automatons@.len()
    }
}

pub open spec fn sorted_by_priority(s: Seq<AutomatonGroup>) -> bool {
    forall|i: int, j: int| 0 <= i < j < s.len() ==> group_key_le(#[trigger] s[i], #[trigger] s[j])
}

pub open spec fn all_non_empty(s: Seq<AutomatonGroup>) -> bool {
    forall|i: int| 0 <= i < s.len() ==> (#[trigger] s[i]).automatons@.len() > 0
}

/// `pos` maps each of `out` to a distinct position of `input` that holds it,
/// at or after `from`, and two groups of equal priority keep their order.
pub open spec fn stable_placement(
    out: Seq<AutomatonGroup>,
    input: Seq<AutomatonGroup>,
    from: int,
    pos: Seq<int>,
) -> bool {
    &&& pos.len() == out.len()
    &&& forall|q: int| 0 <= q < out.len() ==> from <= #[trigger] pos[q] < input.len() && out[q] == input[pos[q]]
    &&& forall|q: int, l: int| 0 <= q < l < out.len() ==> #[trigger] pos[q] != #[trigger] pos[l]
    &&& forall|q: int, l: int|
        0 <= q < l < out.len() && group_key_le(#[trigger] out[l], #[trigger] out[q]) ==> pos[q] < pos[l]
}

fn key_le(a: &AutomatonGroup, b: &AutomatonGroup) -> (r: bool)
    requires
        a.automatons@.len() > 0,
        b.automatons@.len() > 0,
    ensures
        r == group_key_le(*a, *b),
{
    let x = &a.automatons[0];
    let y = &b.automatons[0];
    if x.is_exact != y.is_exact {
        x.is_exact
    } else if x.ngram != y.ngram {
        x.ngram < y.ngram
    } else {
        a.automatons.len() >= b.automatons.len()
    }
}

/// Keeps the first group in front and sorts the others by priority, keeping
/// the insertion order of groups of equal priority.
pub fn order_groups(groups: Vec<AutomatonGroup>) -> (r: Vec<AutomatonGroup>)
    requires
        groups@.len() > 0,
        all_non_empty(groups@.subrange(1, groups@.len() as int)),
    ensures
        r@.len() == groups@.len(),
        r@[0] == groups@[0],
        sorted_by_priority(r@.subrange(1, r@.len() as int)),
        r@.subrange(1, r@.len() as int).to_multiset() == groups@.subrange(
            1,
            groups@.len() as int,
        ).to_multiset(),
        exists|pos: Seq<int>| stable_placement(r@.subrange(1, r@.len() as int), groups@, 1, pos),
{
    let ghost orig = groups@;
    let n = groups.len();
    let mut groups = groups;
    let mut sorted: Vec<AutomatonGroup> = Vec::new();
    let ghost mut pos: Seq<int> = Seq::empty();
    proof {
        assert(orig.subrange(n as int, n as int) =~= Seq::<AutomatonGroup>::empty());
        orig.subrange(n as int, n as int).to_multiset_ensures();
        sorted@.to_multiset_ensures();
    }
    while groups.len() > 1
        invariant
            1 <= groups@.len() <= n,
            n == orig.len(),
            all_non_empty(orig.subrange(1, n as int)),
            groups@ == orig.subrange(0, groups@.len() as int),
            sorted@.to_multiset() == orig.subrange(groups@.len() as int, n as int).to_multiset(),
            sorted@.len() + groups@.len() == n,
            sorted_by_priority(sorted@),
            all_non_empty(sorted@),
            stable_placement(sorted@, orig, groups@.len() as int, pos),
        decreases groups@.len(),
    {
        let k = groups.len();
        let g = groups.pop().unwrap();
        assert(g == orig[k - 1]);
        assert(g == orig.subrange(1, n as int)[k - 2]);
        let mut p: usize = 0;
        while p < sorted.len() && !key_le(&g, &sorted[p])
            invariant
                0 <= p <= sorted@.len(),
                g.automatons@.len() > 0,
                all_non_empty(sorted@),
                forall|q: int| 0 <= q < p ==> !group_key_le(g, #[trigger] sorted@[q]),
            decreases sorted@.len() - p,
        {
            p += 1;
        }
        proof {
            let s = sorted@;
            assert forall|q: int| 0 <= q < p implies group_key_le(#[trigger] s[q], g) by {}
            assert forall|q: int| p <= q < s.len() implies group_key_le(g, #[trigger] s[q]) by {
                assert(group_key_le(g, s[p as int]));
                assert(group_key_le(s[p as int], s[q]) || p == q);
            }
            vstd::seq_lib::to_multiset_insert(s, p as int, g);
            let before = orig.subrange(k as int, n as int);
            let after = orig.subrange(k - 1, n as int);
            assert(after =~= before.insert(0, g));
            vstd::seq_lib::to_multiset_insert(before, 0, g);
        }
        let ghost s0 = sorted@;
        let ghost pos0 = pos;
        sorted.insert(p, g);
        proof {
            pos = pos0.insert(p as int, k - 1);
            let s1 = sorted@;
            assert forall|q: int| 0 <= q < s1.len() implies k - 1 <= #[trigger] pos[q] < orig.len()
                && s1[q] == orig[pos[q]] by {
                if q < p {
                    assert(pos[q] == pos0[q]);
                } else if q > p {
                    assert(pos[q] == pos0[q - 1]);
                }
            }
            assert forall|q: int, l: int| 0 <= q < l < s1.len() implies #[trigger] pos[q]
                != #[trigger] pos[l] by {
                if q != p && l != p {
                    let q0 = if q < p { q } else { q - 1 };
                    let l0 = if l < p { l } else { l - 1 };
                    assert(pos[q] == pos0[q0] && pos[l] == pos0[l0]);
                    assert(q0 < l0);
                }
            }
            assert forall|q: int, l: int|
                0 <= q < l < s1.len() && group_key_le(#[trigger] s1[l], #[trigger] s1[q]) implies pos[q]
                < pos[l] by {
                if q == p {
                    assert(pos[l] == pos0[l - 1]);
                } else if l == p {
                    assert(s1[q] == s0[q]);
                    assert(!group_key_le(g, s0[q]));
                } else {
                    let q0 = if q < p { q } else { q - 1 };
                    let l0 = if l < p { l } else { l - 1 };
                    assert(pos[q] == pos0[q0] && pos[l] == pos0[l0]);
                    assert(s1[q] == s0[q0] && s1[l] == s0[l0]);
                    assert(q0 < l0);
                }
            }
        }
    }
    let mut out: Vec<AutomatonGroup> = groups;
    let ghost tail = sorted@;
    out.append(&mut sorted);
    proof {
        assert(out@.subrange(1, out@.len() as int) =~= tail);
        assert(stable_placement(out@.subrange(1, out@.len() as int), orig, 1, pos));
    }
    out
}

/// An exact group on one query word is tried before a non-exact group on two,
/// and the first group stays in front whatever its priority.
pub proof fn lemma_exact_unigram_before_fuzzy_bigram(
    groups: Seq<AutomatonGroup>,
    r: Seq<AutomatonGroup>,
    i: int,
    j: int,
)
    requires
        r.len() == groups.len(),
        groups.len() > 0,
        r[0] == groups[0],
        sorted_by_priority(r.subrange(1, r.len() as int)),
        1 <= i < r.len(),
        1 <= j < r.len(),
        r[i].automatons@.len() > 0,
        r[j].automatons@.len() > 0,
        r[i].automatons@[0].is_exact,
        r[i].automatons@[0].ngram == 1,
        !r[j].automatons@[0].is_exact,
        r[j].automatons@[0].ngram == 2,
    ensures
        i < j,
        r[0] == groups[0],
{
    let s = r.subrange(1, r.len() as int);
    if j < i {
        assert(group_key_le(s[j - 1], s[i - 1]));
    }
}

} // verus!
